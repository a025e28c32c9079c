//! An ordered set, kept as a binary search tree on a tree of branch factor
//! two: what comes before a node's element is at the first branch, what
//! comes after it at the second.

use crate::convert::IntoWriteGuard;
use crate::guard::{NodeOwnedGuard, NodeWriteGuard};
use crate::operation::TreeOperation;
use crate::order::{is_less, total_order};
use crate::shape::Shape;
use crate::tree::Tree;
use vstd::prelude::*;

verus! {

/// An ordered set of elements of type `T`.
pub struct BinarySearchTree<T: Ord + Eq> {
    tree: Tree<T, 2>,
}

impl<T: Ord + Eq> View for BinarySearchTree<T> {
    type V = Set<T>;

    open spec fn view(&self) -> Set<T> {
        self.shape().contents()
    }
}

impl<T: Ord + Eq> BinarySearchTree<T> {
    /// The binary tree that the set is kept as.
    pub closed spec fn shape(&self) -> Shape<T> {
        self.tree@.shape_of(self.tree.heights(), self.tree@.root)
    }

    /// The number of slots that the set takes up.
    pub closed spec fn size(&self) -> nat {
        self.tree@.slots.len()
    }

    /// The tree is in order and holds nothing but the nodes of the set.
    pub closed spec fn wf(&self) -> bool {
        &&& self.tree.wf()
        &&& self.tree@.is_clean()
        &&& self.shape().ordered()
    }

    /// An empty set.
    pub fn new() -> (set: Self)
        ensures
            set.wf(),
            set.shape() == Shape::<T>::Leaf,
            set@ == Set::<T>::empty(),
            set.size() == 0,
    {
        BinarySearchTree { tree: Tree::new() }
    }

    /// The tree that the set is kept in, for reading.
    pub fn tree(&self) -> (tree: &Tree<T, 2>)
        requires
            self.wf(),
        ensures
            tree.wf(),
            tree@.is_clean(),
            tree@.shape_of(tree.heights(), tree@.root) == self.shape(),
            tree@.slots.len() == self.size(),
            self.shape().ordered(),
    {
        &self.tree
    }

    /// A set takes up one slot for each node of its binary tree, and the
    /// binary tree is in order.
    pub proof fn lemma_size(&self)
        requires
            self.wf(),
        ensures
            self.size() == self.shape().count(),
            self.shape().ordered(),
    {
        self.tree@.lemma_clean_count(self.tree.heights());
    }

    /// A walk in order through the binary tree of the set visits every
    /// element of the set once, each before the next greater one.
    pub proof fn lemma_walk_in_order(&self)
        requires
            total_order::<T>(),
            self.wf(),
        ensures
            self.shape().ordered(),
            Shape::increasing(self.shape().inorder()),
            self.shape().inorder().to_set() == self@,
    {
        self.shape().lemma_inorder();
    }

    /// Adds `elem` to the set. Nothing changes where the set holds it
    /// already.
    pub fn insert(&mut self, elem: T)
        requires
            total_order::<T>(),
            old(self).wf(),
            old(self).size() < usize::MAX,
        ensures
            final(self).wf(),
            final(self).shape() == old(self).shape().inserted(elem),
            final(self)@ == old(self)@.insert(elem),
            old(self)@.contains(elem) ==> final(self).shape() == old(self).shape(),
            final(self).size() == if old(self)@.contains(elem) {
                old(self).size()
            } else {
                old(self).size() + 1
            },
    {
        let ghost start = self.tree@;
        let ghost h = self.tree.heights();
        let mut op = self.tree.operation();
        match op.write_root() {
            Some(guard) => {
                Self::insert_to_node(&mut op, guard, elem);
            },
            None => {
                let _ = op.put_root_elem(elem);
                proof {
                    let w = op@;
                    let k = op.heights();
                    let fresh = start.slots.len() as int;
                    w.lemma_lower_child(k, fresh, 0);
                    w.lemma_lower_child(k, fresh, 1);
                    assert(w.slots[fresh].children() == crate::node::no_children(2));
                    assert(w.shape_at(k, fresh) == Shape::fork(Shape::Leaf, elem, Shape::Leaf));
                    assert(Shape::<T>::Leaf.inserted(elem) == Shape::fork(
                        Shape::Leaf,
                        elem,
                        Shape::Leaf,
                    ));
                }
            },
        }
        let ghost mid = op@;
        let ghost k = op.heights();
        assert(mid.shape_of(k, mid.root) == start.shape_of(h, start.root).inserted(elem));
        op.finish_and_gc();
        proof {
            let end = self.tree@;
            let origin = choose|origin: Seq<int>| #[trigger] end.kept_from(mid, origin, 2);
            let r = end.root.unwrap() as int;
            end.lemma_shape_relocated(self.tree.heights(), mid, k, origin, r);
            old(self).shape().lemma_inserted(elem);
            old(self).shape().lemma_finds(elem);
            old(self).shape().lemma_inserted_count(elem);
            start.lemma_clean_count(h);
            end.lemma_clean_count(self.tree.heights());
        }
    }

    /// Inserts `elem` below the node of `guard`, unless it is there
    /// already.
    fn insert_to_node(op: &mut TreeOperation<'_, T, 2>, guard: NodeWriteGuard, elem: T)
        requires
            total_order::<T>(),
            old(op).wf(),
            guard.wf(old(op)),
            old(op)@.slots.len() < usize::MAX,
        ensures
            final(op).wf(),
            final(op)@.shape_at(final(op).heights(), guard.slot() as int) == old(op)@.shape_at(
                old(op).heights(),
                guard.slot() as int,
            ).inserted(elem),
            old(op)@.slots.len() <= final(op)@.slots.len() <= old(op)@.slots.len() + 1,
            final(op)@.root == old(op)@.root,
            final(op)@.pending == old(op)@.pending,
            old(op)@.untouched_beside(old(op).heights(), final(op)@, guard.slot() as int),
            *final(final(op).tree) == *final(old(op).tree),
        decreases old(op).heights()[guard.slot() as int],
    {
        let ghost v = op@;
        let ghost h = op.heights();
        let ghost g = guard.slot() as int;
        let ghost x = elem;
        let node_elem = guard.elem(op);
        let after = is_less(node_elem, &elem);
        let before = is_less(&elem, node_elem);
        proof {
            v.lemma_set_elem_same(g);
            v.lemma_lower_child(h, g, 0);
            v.lemma_lower_child(h, g, 1);
            assert(v.below(h, g).contains(g));
        }
        assert(op@ == v);
        proof {
            assert(v.link_ok(g, 0));
            assert(v.link_ok(g, 1));
        }
        if !after && !before {
            return ;
        }
        let branch: usize = if after {
            1
        } else {
            0
        };
        let children = guard.children();
        let child = match children.borrow_child_write(op, branch) {
            Ok(child) => child,
            Err(_) => None,
        };
        match child {
            Some(child_guard) => {
                let ghost c = child_guard.slot() as int;
                Self::insert_to_node(op, child_guard, elem);
                proof {
                    let w = op@;
                    let k = op.heights();
                    assert(!v.below(h, c).contains(g)) by {
                        if v.below(h, c).contains(g) {
                            v.lemma_below(h, c, g);
                        }
                    }
                    assert(w.slots[g] == v.slots[g]);
                    w.lemma_lower_child(k, g, 0);
                    w.lemma_lower_child(k, g, 1);
                    let other = 1 - branch as int;
                    if v.child(g, other) is Some {
                        let d = v.child(g, other).unwrap() as int;
                        assert forall|j: int| #[trigger]
                            v.below(h, d).contains(j) implies v.same_content(w, j) by {
                            v.lemma_branches_apart(h, d, c, j);
                            v.lemma_below(h, d, j);
                        }
                        v.lemma_shape_frame(h, w, k, d);
                    }
                    assert forall|j: int|
                        0 <= j < v.slots.len() && !v.below(h, g).contains(j) implies #[trigger] w.slots[j]
                        == v.slots[j] by {
                        assert(!v.below(h, c).contains(j));
                    }
                }
            },
            None => {
                let _ = children.put_child_elem(op, branch, elem);
                proof {
                    let w = op@;
                    let k = op.heights();
                    let fresh = v.slots.len() as int;
                    assert(v.slots[g].children().len() == 2);
                    assert(w.slots[g].children() == v.slots[g].children().update(
                        branch as int,
                        crate::node::ChildId { index: Some(fresh as usize) },
                    ));
                    w.lemma_lower_child(k, g, 0);
                    w.lemma_lower_child(k, g, 1);
                    w.lemma_lower_child(k, fresh, 0);
                    w.lemma_lower_child(k, fresh, 1);
                    assert(w.slots[fresh].children() == crate::node::no_children(2));
                    let other = 1 - branch as int;
                    if v.child(g, other) is Some {
                        let d = v.child(g, other).unwrap() as int;
                        assert forall|j: int| #[trigger]
                            v.below(h, d).contains(j) implies v.same_content(w, j) by {
                            v.lemma_below(h, d, j);
                        }
                        v.lemma_shape_frame(h, w, k, d);
                    }
                    assert(w.shape_at(k, fresh) == Shape::fork(Shape::Leaf, x, Shape::Leaf));
                    assert(Shape::<T>::Leaf.inserted(x) == Shape::fork(
                        Shape::Leaf,
                        x,
                        Shape::Leaf,
                    ));
                }
            },
        }
    }

    /// Detaches the node that is reached from the node of `guard` by going
    /// to the first branch as long as there is one, unless that is the node
    /// of `guard` itself. What was at the second branch of the detached
    /// node takes its place.
    fn detach_smallest(op: &mut TreeOperation<'_, T, 2>, guard: NodeWriteGuard) -> (smallest:
        Option<NodeOwnedGuard>)
        requires
            old(op).wf(),
            guard.wf(old(op)),
        ensures
            final(op).wf(),
            final(op)@.slots.len() == old(op)@.slots.len(),
            final(op)@.root == old(op)@.root,
            final(op)@.pending == old(op)@.pending,
            old(op)@.untouched_beside(old(op).heights(), final(op)@, guard.slot() as int),
            old(op)@.keeps_nodes_but(final(op)@, None),
            old(op)@.child(guard.slot() as int, 0) is None ==> smallest is None && final(op)@
                == old(op)@ && final(op).heights() == old(op).heights(),
            old(op)@.child(guard.slot() as int, 0) is Some ==> smallest is Some && old(op)@.detached_least(
                old(op).heights(),
                final(op)@,
                final(op).heights(),
                guard.slot() as int,
                smallest.unwrap().slot() as int,
            ),
            *final(final(op).tree) == *final(old(op).tree),
        decreases old(op).heights()[guard.slot() as int],
    {
        let ghost v = op@;
        let ghost h = op.heights();
        let ghost g = guard.slot() as int;
        proof {
            v.lemma_shape_unfold(h, g);
        }
        let children = guard.children();
        let left = match children.borrow_child_write(op, 0) {
            Ok(left) => left,
            Err(_) => None,
        };
        match left {
            None => None,
            Some(left_guard) => {
                let ghost l = left_guard.slot() as int;
                proof {
                    v.lemma_shape_unfold(h, l);
                    assert(!v.below(h, l).contains(g)) by {
                        if v.below(h, l).contains(g) {
                            v.lemma_below(h, l, g);
                        }
                    }
                }
                match Self::detach_smallest(op, left_guard) {
                    Some(smallest) => {
                        proof {
                            let w = op@;
                            let k = op.heights();
                            let m = smallest.slot() as int;
                            assert(w.slots[g] == v.slots[g]);
                            w.lemma_shape_unfold(k, g);
                            if v.child(g, 1) is Some {
                                let d = v.child(g, 1).unwrap() as int;
                                assert forall|j: int| #[trigger]
                                    v.below(h, d).contains(j) implies v.same_content(w, j) by {
                                    v.lemma_branches_apart(h, d, l, j);
                                    v.lemma_below(h, d, j);
                                }
                                v.lemma_shape_frame(h, w, k, d);
                                assert(!w.below(k, d).contains(m)) by {
                                    v.lemma_branches_apart(h, l, d, m);
                                }
                            }
                            assert forall|j: int|
                                0 <= j < v.slots.len() && !v.below(h, g).contains(
                                    j,
                                ) implies #[trigger] w.slots[j] == v.slots[j] by {
                                assert(!v.below(h, l).contains(j));
                            }
                            assert(w.below(k, g).subset_of(v.below(h, g)));
                        }
                        Some(smallest)
                    },
                    None => {
                        assert(op@ == v && op.heights() == h);
                        let smallest = match children.take_child(op, 0) {
                            Ok(Some(smallest)) => smallest,
                            _ => vstd::pervasive::unreached(),
                        };
                        let ghost v1 = op@;
                        let right = match smallest.children().take_child(op, 1) {
                            Ok(right) => right,
                            Err(_) => None,
                        };
                        let ghost v2 = op@;
                        proof {
                            assert(op.heights() == h);
                            assert(v2.is_present(g));
                        }
                        match right {
                            Some(right_guard) => {
                                proof {
                                    let r = right_guard.slot() as int;
                                    assert(v.child(l, 1) == Some(r as usize));
                                    v2.lemma_not_above(h, g, r, 2);
                                }
                                let _ = children.put_child_tree(op, 0, right_guard);
                            },
                            None => {},
                        }
                        proof {
                            let w = op@;
                            let k = op.heights();
                            assert(w.is_present(g) && w.elem(g) == v.elem(g));
                            assert(w.child(g, 0) == v.child(l, 1));
                            assert(w.child(g, 1) == v.child(g, 1));
                            assert(w.is_present(l) && w.elem(l) == v.elem(l));
                            w.lemma_shape_unfold(k, g);
                            if v.child(g, 1) is Some {
                                let d = v.child(g, 1).unwrap() as int;
                                v.lemma_shape_unfold(h, d);
                                assert forall|j: int| #[trigger]
                                    v.below(h, d).contains(j) implies v.same_content(w, j) by {
                                    v.lemma_branches_apart(h, d, l, j);
                                    v.lemma_below(h, d, j);
                                    if v.child(l, 1) is Some {
                                        v.lemma_shape_unfold(h, v.child(l, 1).unwrap() as int);
                                    }
                                }
                                v.lemma_shape_frame(h, w, k, d);
                                assert(!v.below(h, d).contains(l)) by {
                                    v.lemma_branches_apart(h, l, d, l);
                                }
                            }
                            if v.child(l, 1) is Some {
                                let r = v.child(l, 1).unwrap() as int;
                                v.lemma_shape_unfold(h, r);
                                assert forall|j: int| #[trigger]
                                    v.below(h, r).contains(j) implies v.same_content(w, j) by {
                                    v.lemma_below(h, r, j);
                                }
                                v.lemma_shape_frame(h, w, k, r);
                                assert(!v.below(h, r).contains(l)) by {
                                    if v.below(h, r).contains(l) {
                                        v.lemma_below(h, r, l);
                                    }
                                }
                            }
                            assert(w.below(k, g).subset_of(v.below(h, g)));
                            let below_l = v.shape_at(h, l);
                            assert(v.child(l, 0) is None);
                            assert(below_l.least() == v.elem(l));
                            assert(below_l.without_least() == v.shape_of(h, v.child(l, 1)));
                            assert(v.shape_at(h, g).least() == below_l.least());
                        }
                        Some(smallest)
                    },
                }
            },
        }
    }

    /// The position that an optional owned guard names.
    pub open spec fn owned_at(guard: Option<NodeOwnedGuard>) -> Option<int> {
        match guard {
            Some(guard) => Some(guard.slot() as int),
            None => None,
        }
    }

    /// Joins two detached subtrees of which the first holds what comes
    /// before all that the second holds: the least node of the second
    /// becomes the root, with the first subtree at its first branch and the
    /// rest of the second at its second branch.
    fn join_children(
        op: &mut TreeOperation<'_, T, 2>,
        left_child: NodeOwnedGuard,
        right_child: NodeOwnedGuard,
    ) -> (joined: NodeOwnedGuard)
        requires
            old(op).wf(),
            left_child.wf(old(op)),
            right_child.wf(old(op)),
            left_child.slot() != right_child.slot(),
        ensures
            final(op).wf(),
            old(op)@.joined_as(
                old(op).heights(),
                final(op)@,
                final(op).heights(),
                left_child.slot() as int,
                right_child.slot() as int,
                joined.slot() as int,
            ),
            *final(final(op).tree) == *final(old(op).tree),
    {
        let ghost v = op@;
        let ghost h = op.heights();
        let ghost l = left_child.slot() as int;
        let ghost r = right_child.slot() as int;
        proof {
            v.lemma_detached_apart(h, l, r);
            v.lemma_shape_unfold(h, r);
        }
        let right_write = (&right_child).into_write_guard();
        match Self::detach_smallest(op, right_write) {
            Some(smallest) => {
                let ghost cut = op@;
                let ghost g = op.heights();
                let ghost m = smallest.slot() as int;
                proof {
                    assert(cut.slots[l] == v.slots[l]);
                    assert(m != l && m != r);
                    cut.lemma_top_has_no_ancestor_of(m);
                    assert(cut.slots[m].children().len() == 2);
                    cut.lemma_put_child_tree_effect(m, 0, l, 2);
                }
                let _ = smallest.children().put_child_tree(op, 0, left_child);
                let ghost half = op@;
                proof {
                    half.lemma_top_has_no_ancestor_of(m);
                }
                let _ = smallest.children().put_child_tree(op, 1, right_child);
                proof {
                    v.lemma_joined_onto_least(h, cut, g, half, op@, op.heights(), l, r, m);
                }
                smallest
            },
            None => {
                proof {
                    v.lemma_top_has_no_ancestor_of(r);
                }
                let _ = right_child.children().put_child_tree(op, 0, left_child);
                proof {
                    v.lemma_joined_onto_right(h, op@, op.heights(), l, r);
                }
                right_child
            },
        }
    }

    /// Takes the root out of the detached subtree of `guard` and returns
    /// what takes its place: nothing if the root has no children, the
    /// child if it has one, and else what its two children are joined to.
    /// The root becomes garbage and waits for removal; every other node
    /// stays a node.
    fn take_replacement(op: &mut TreeOperation<'_, T, 2>, guard: NodeOwnedGuard) -> (replacement:
        Option<NodeOwnedGuard>)
        requires
            old(op).wf(),
            guard.wf(old(op)),
        ensures
            final(op).wf(),
            old(op)@.rebuilt_as(
                old(op).heights(),
                final(op)@,
                final(op).heights(),
                guard.slot() as int,
                Self::owned_at(replacement),
                Shape::joined(
                    old(op)@.shape_of(old(op).heights(), old(op)@.child(guard.slot() as int, 0)),
                    old(op)@.shape_of(old(op).heights(), old(op)@.child(guard.slot() as int, 1)),
                ),
            ),
            old(op)@.consumed(
                old(op).heights(),
                final(op)@,
                guard.slot() as int,
                Some(guard.slot() as int),
            ),
            *final(final(op).tree) == *final(old(op).tree),
    {
        let ghost v = op@;
        let ghost h = op.heights();
        let ghost n = guard.slot() as int;
        let children = guard.children();
        let left = match children.take_child(op, 0) {
            Ok(left) => left,
            Err(_) => None,
        };
        let right = match children.take_child(op, 1) {
            Ok(right) => right,
            Err(_) => None,
        };
        let ghost taken = op@;
        proof {
            v.lemma_children_taken(h, n, taken);
        }
        match (left, right) {
            (Some(left_child), Some(right_child)) => {
                let joined = Self::join_children(op, left_child, right_child);
                let ghost w = op@;
                let ghost g = op.heights();
                proof {
                    let l = v.child(n, 0).unwrap() as int;
                    let r = v.child(n, 1).unwrap() as int;
                    taken.lemma_detached_apart(h, n, l);
                    taken.lemma_detached_apart(h, n, r);
                    assert(w.slots[n] == taken.slots[n]);
                }
                let _ = guard.into_elem(op);
                proof {
                    v.lemma_replaced_by_joined(
                        h,
                        taken,
                        w,
                        g,
                        op@,
                        op.heights(),
                        n,
                        joined.slot() as int,
                    );
                }
                Some(joined)
            },
            (Some(left_child), None) => {
                let _ = guard.into_elem(op);
                proof {
                    v.lemma_replaced_by_child(h, taken, op@, op.heights(), n);
                }
                Some(left_child)
            },
            (None, Some(right_child)) => {
                let _ = guard.into_elem(op);
                proof {
                    v.lemma_replaced_by_child(h, taken, op@, op.heights(), n);
                }
                Some(right_child)
            },
            (None, None) => {
                let _ = guard.into_elem(op);
                proof {
                    v.lemma_replaced_by_child(h, taken, op@, op.heights(), n);
                }
                None
            },
        }
    }

    /// Removes `elem` from the detached subtree of `guard` and returns
    /// what is left of the subtree. Where the search finds `elem`, the node
    /// that holds it becomes garbage and waits for removal, and no other
    /// node does; where it does not, nothing changes and the guard comes
    /// back.
    fn remove_from_node(op: &mut TreeOperation<'_, T, 2>, guard: NodeOwnedGuard, elem: &T) -> (left:
        Option<NodeOwnedGuard>)
        requires
            total_order::<T>(),
            old(op).wf(),
            guard.wf(old(op)),
        ensures
            final(op).wf(),
            old(op)@.rebuilt_as(
                old(op).heights(),
                final(op)@,
                final(op).heights(),
                guard.slot() as int,
                Self::owned_at(left),
                old(op)@.shape_at(old(op).heights(), guard.slot() as int).removed(*elem),
            ),
            old(op)@.consumed(
                old(op).heights(),
                final(op)@,
                guard.slot() as int,
                old(op)@.found_at(old(op).heights(), guard.slot() as int, *elem),
            ),
            match old(op)@.found_at(old(op).heights(), guard.slot() as int, *elem) {
                Some(j) => old(op)@.is_present(j) && old(op)@.elem(j) == *elem,
                None => true,
            },
            old(op)@.found_at(old(op).heights(), guard.slot() as int, *elem) != Some(
                guard.slot() as int,
            ) ==> left == Some(guard),
            old(op)@.found_at(old(op).heights(), guard.slot() as int, *elem) is None ==> final(op)@ == old(op)@,
            *final(final(op).tree) == *final(old(op).tree),
        decreases old(op).heights()[guard.slot() as int],
    {
        let ghost v = op@;
        let ghost h = op.heights();
        let ghost n = guard.slot() as int;
        let node_elem = guard.elem(op);
        let after = is_less(node_elem, elem);
        let before = is_less(elem, node_elem);
        proof {
            v.lemma_set_elem_same(n);
            v.lemma_shape_unfold(h, n);
            v.lemma_lower_child(h, n, 0);
            v.lemma_lower_child(h, n, 1);
            v.lemma_found_at(h, n, *elem);
        }
        assert(op@ == v);
        if !after && !before {
            return Self::take_replacement(op, guard);
        }
        let branch: usize = if after {
            1
        } else {
            0
        };
        let children = guard.children();
        let child = match children.take_child(op, branch) {
            Ok(child) => child,
            Err(_) => None,
        };
        let ghost taken = op@;
        match child {
            Some(child_guard) => {
                let ghost c = child_guard.slot() as int;
                proof {
                    v.lemma_take_child_effect(h, n, branch as int, 2);
                    v.lemma_shape_unfold(h, c);
                    assert(!v.below(h, c).contains(n)) by {
                        if v.below(h, c).contains(n) {
                            v.lemma_below(h, c, n);
                        }
                    }
                    assert forall|j: int| #[trigger]
                        v.below(h, c).contains(j) implies v.same_content(taken, j) by {
                        v.lemma_below(h, c, j);
                    }
                    v.lemma_shape_frame(h, taken, h, c);
                    v.lemma_found_frame(h, taken, h, c, *elem);
                }
                let rest = Self::remove_from_node(op, child_guard, elem);
                let ghost inner = op@;
                let ghost g = op.heights();
                proof {
                    assert(inner.slots[n] == taken.slots[n]);
                    inner.lemma_top_has_no_ancestor_of(n);
                }
                match rest {
                    Some(rest_guard) => {
                        let ghost r = rest_guard.slot() as int;
                        let _ = children.put_child_tree(op, branch, rest_guard);
                        proof {
                            v.lemma_rebuilt_below(
                                h,
                                taken,
                                inner,
                                g,
                                op@,
                                op.heights(),
                                n,
                                branch as int,
                                Some(r),
                                v.found_at(h, c, *elem),
                                v.shape_at(h, c).removed(*elem),
                            );
                            if v.found_at(h, c, *elem) is None {
                                v.lemma_take_then_put_is_identity(n, branch as int, 2);
                            }
                        }
                    },
                    None => {
                        proof {
                            v.lemma_rebuilt_below(
                                h,
                                taken,
                                inner,
                                g,
                                op@,
                                op.heights(),
                                n,
                                branch as int,
                                None,
                                v.found_at(h, c, *elem),
                                v.shape_at(h, c).removed(*elem),
                            );
                        }
                    },
                }
            },
            None => {
                proof {
                    assert(taken == v);
                    assert(Shape::<T>::Leaf.removed(*elem) == Shape::<T>::Leaf);
                    assert(v.found_at(h, n, *elem) is None);
                }
            },
        }
        Some(guard)
    }

    /// Takes `elem` out of the set. Nothing changes where the set does not
    /// hold it.
    pub fn remove(&mut self, elem: T)
        requires
            total_order::<T>(),
            old(self).wf(),
        ensures
            final(self).wf(),
            final(self).shape() == old(self).shape().removed(elem),
            final(self)@ == old(self)@.remove(elem),
            !old(self)@.contains(elem) ==> final(self).shape() == old(self).shape(),
            final(self).size() == if old(self)@.contains(elem) {
                old(self).size() - 1
            } else {
                old(self).size() as int
            },
    {
        let ghost start = self.tree@;
        let ghost h = self.tree.heights();
        let mut op = self.tree.operation();
        match op.take_root() {
            Some(guard) => {
                let ghost taken = op@;
                let ghost n = guard.slot() as int;
                proof {
                    start.lemma_shape_unfold(h, n);
                    assert forall|j: int| #[trigger]
                        start.below(h, n).contains(j) implies start.same_content(taken, j) by {
                        start.lemma_below(h, n, j);
                    }
                    start.lemma_shape_frame(h, taken, h, n);
                }
                let rest = Self::remove_from_node(&mut op, guard, &elem);
                let ghost inner = op@;
                let ghost g = op.heights();
                match rest {
                    Some(rest_guard) => {
                        let ghost r = rest_guard.slot() as int;
                        let _ = op.put_root_tree(rest_guard);
                        proof {
                            let w = op@;
                            let k = op.heights();
                            assert forall|j: int| #[trigger]
                                inner.below(g, r).contains(j) implies inner.same_content(w, j) by {
                                inner.lemma_below(g, r, j);
                            }
                            inner.lemma_shape_frame(g, w, k, r);
                        }
                    },
                    None => {},
                }
            },
            None => {
                proof {
                    assert(Shape::<T>::Leaf.removed(elem) == Shape::<T>::Leaf);
                }
            },
        }
        let ghost mid = op@;
        let ghost k = op.heights();
        assert(mid.shape_of(k, mid.root) == start.shape_of(h, start.root).removed(elem));
        op.finish_and_gc();
        proof {
            let end = self.tree@;
            let origin = choose|origin: Seq<int>| #[trigger] end.kept_from(mid, origin, 2);
            if end.root is Some {
                let r = end.root.unwrap() as int;
                end.lemma_shape_relocated(self.tree.heights(), mid, k, origin, r);
            }
            old(self).shape().lemma_removed(elem);
            old(self).shape().lemma_finds(elem);
            old(self).shape().lemma_removed_count(elem);
            start.lemma_clean_count(h);
            end.lemma_clean_count(self.tree.heights());
        }
    }
}

} // verus!
