//! How an ordered set rebuilds a detached subtree whose root is removed:
//! the states that the rebuilding goes through, and the shapes that are
//! read from them.

use crate::model::TreeView;
use crate::node::ParentId;
use crate::order::{lemma_less_laws, less, total_order};
use crate::reading::height_at;
use crate::shape::Shape;
use vstd::prelude::*;

verus! {

impl<T: Ord> TreeView<T> {
    /// The slots of `self` that lie neither below `a` nor below `b` are
    /// the same in `after`.
    pub open spec fn untouched_beside_two(self, h: Seq<nat>, after: Self, a: int, b: int) -> bool {
        forall|j: int|
            0 <= j < self.slots.len() && !self.below(h, a).contains(j) && !self.below(
                h,
                b,
            ).contains(j) ==> #[trigger] after.slots[j] == self.slots[j]
    }

    /// The slots of `self` that do not lie below `i` are the same in
    /// `after`.
    pub open spec fn untouched_beside(self, h: Seq<nat>, after: Self, i: int) -> bool {
        forall|j: int|
            0 <= j < self.slots.len() && !self.below(h, i).contains(j) ==> #[trigger] after.slots[j]
                == self.slots[j]
    }

    /// Every node of `self`, but the one at `gone`, is a node of `after`
    /// with the same element.
    pub open spec fn keeps_nodes_but(self, after: Self, gone: Option<int>) -> bool {
        forall|i: int| #[trigger]
            self.is_present(i) && gone != Some(i) ==> after.is_present(i) && after.elem(i)
                == self.elem(i)
    }

    /// What the rebuilding of the subtree at `n` has consumed: nothing, or
    /// the node at `gone`, which lay below `n`, is garbage now and is the
    /// one position that was added to the queue. Every other node is still
    /// a node with the same element.
    pub open spec fn consumed(self, h: Seq<nat>, after: Self, n: int, gone: Option<int>) -> bool {
        &&& after.pending == match gone {
            Some(j) => self.pending.push(j as usize),
            None => self.pending,
        }
        &&& match gone {
            Some(j) => {
                &&& self.below(h, n).contains(j)
                &&& 0 <= j < after.slots.len()
                &&& after.slots[j] is Garbage
            },
            None => true,
        }
        &&& self.keeps_nodes_but(after, gone)
    }

    /// The position at which the search for `x` from the node at `i`
    /// ends, if it ends at a node: the search goes to the second branch
    /// where the node's element comes before `x`, to the first where `x`
    /// comes before the node's element, and ends where neither is so.
    pub open spec fn found_at(self, h: Seq<nat>, i: int, x: T) -> Option<int>
        decreases height_at(h, i),
    {
        if self.is_present(i) && i < h.len() {
            if less(self.elem(i), x) {
                match self.lower_child(h, i, 1) {
                    Some(c) => self.found_at(h, c, x),
                    None => None,
                }
            } else if less(x, self.elem(i)) {
                match self.lower_child(h, i, 0) {
                    Some(c) => self.found_at(h, c, x),
                    None => None,
                }
            } else {
                Some(i)
            }
        } else {
            None
        }
    }

    /// The search in the store ends at a node exactly if the search in the
    /// shape does; the node lies below the start and holds `x`.
    pub proof fn lemma_found_at(self, h: Seq<nat>, i: int, x: T)
        requires
            total_order::<T>(),
            self.linked(2),
            self.ranked(h),
        ensures
            self.found_at(h, i, x) is Some == self.shape_at(h, i).finds(x),
            match self.found_at(h, i, x) {
                Some(j) => self.below(h, i).contains(j) && self.is_present(j) && self.elem(j) == x,
                None => true,
            },
        decreases height_at(h, i),
    {
        lemma_less_laws::<T>();
        if self.is_present(i) && i < h.len() {
            if self.lower_child(h, i, 0) is Some {
                self.lemma_found_at(h, self.lower_child(h, i, 0).unwrap(), x);
            }
            if self.lower_child(h, i, 1) is Some {
                self.lemma_found_at(h, self.lower_child(h, i, 1).unwrap(), x);
            }
            assert(Shape::<T>::Leaf.finds(x) == false);
        }
    }

    /// The search from `i` ends where it ended as long as the nodes below
    /// `i` keep their elements and their children.
    pub proof fn lemma_found_frame(self, h: Seq<nat>, other: Self, g: Seq<nat>, i: int, x: T)
        requires
            self.linked(2),
            self.ranked(h),
            other.linked(2),
            other.ranked(g),
            self.is_present(i),
            forall|j: int| #[trigger] self.below(h, i).contains(j) ==> self.same_content(other, j),
        ensures
            other.found_at(g, i, x) == self.found_at(h, i, x),
        decreases height_at(h, i),
    {
        assert(self.below(h, i).contains(i));
        assert(self.same_content(other, i));
        self.lemma_lower_child(h, i, 0);
        self.lemma_lower_child(h, i, 1);
        other.lemma_lower_child(g, i, 0);
        other.lemma_lower_child(g, i, 1);
        assert(other.child(i, 0) == self.child(i, 0));
        assert(other.child(i, 1) == self.child(i, 1));
        if self.lower_child(h, i, 0) is Some {
            let c = self.lower_child(h, i, 0).unwrap();
            assert forall|j: int| #[trigger] self.below(h, c).contains(j) implies self.same_content(
                other,
                j,
            ) by {
                assert(self.below(h, i).contains(j));
            }
            self.lemma_found_frame(h, other, g, c, x);
        }
        if self.lower_child(h, i, 1) is Some {
            let c = self.lower_child(h, i, 1).unwrap();
            assert forall|j: int| #[trigger] self.below(h, c).contains(j) implies self.same_content(
                other,
                j,
            ) by {
                assert(self.below(h, i).contains(j));
            }
            self.lemma_found_frame(h, other, g, c, x);
        }
    }

    /// The detached subtrees at `l` and `r` are joined in `after`: the
    /// node at `m` holds the least element of what was below `r`, above
    /// what was below `l` and the rest of what was below `r`.
    pub open spec fn joined_as(
        self,
        h: Seq<nat>,
        after: Self,
        k: Seq<nat>,
        l: int,
        r: int,
        m: int,
    ) -> bool {
        &&& after.slots.len() == self.slots.len()
        &&& after.root == self.root
        &&& after.pending == self.pending
        &&& after.is_detached(m)
        &&& self.below(h, r).contains(m)
        &&& after.shape_at(k, m) == Shape::fork(
            self.shape_at(h, l),
            self.shape_at(h, r).least(),
            self.shape_at(h, r).without_least(),
        )
        &&& after.below(k, m).subset_of(self.below(h, l).union(self.below(h, r)))
        &&& self.untouched_beside_two(h, after, l, r)
        &&& self.keeps_nodes_but(after, None)
    }

    /// What `detach_smallest` has done where the node at `g` has a first
    /// branch: the node at `m`, which was below `g`, is detached and has no
    /// children; it holds the least element of what was below `g`, and what
    /// is below `g` now is the rest.
    pub open spec fn detached_least(
        self,
        h: Seq<nat>,
        after: Self,
        k: Seq<nat>,
        g: int,
        m: int,
    ) -> bool {
        &&& self.below(h, g).contains(m)
        &&& m != g
        &&& after.is_detached(m)
        &&& after.elem(m) == self.shape_at(h, g).least()
        &&& after.child(m, 0) is None
        &&& after.child(m, 1) is None
        &&& after.is_present(g)
        &&& after.tag(g) == self.tag(g)
        &&& after.shape_at(k, g) == self.shape_at(h, g).without_least()
        &&& after.below(k, g).subset_of(self.below(h, g))
        &&& !after.below(k, g).contains(m)
    }

    /// After both children of the node at `n` were detached, each of them
    /// is the root of a detached subtree with the shape that was below it,
    /// and no other slot but that of `n` has changed.
    pub proof fn lemma_children_taken(self, h: Seq<nat>, n: int, after: Self)
        requires
            self.linked(2),
            self.ranked(h),
            self.is_present(n),
            after == self.take_child(n, 0).take_child(n, 1),
            after.linked(2),
            after.ranked(h),
        ensures
            after.slots.len() == self.slots.len(),
            after.root == self.root,
            after.pending == self.pending,
            self.keeps_nodes_but(after, None),
            after.is_present(n),
            after.tag(n) == self.tag(n),
            after.elem(n) == self.elem(n),
            after.child(n, 0) is None,
            after.child(n, 1) is None,
            forall|j: int|
                0 <= j < self.slots.len() && j != n && Some(j as usize) != self.child(n, 0) && Some(
                    j as usize,
                ) != self.child(n, 1) ==> #[trigger] after.slots[j] == self.slots[j],
            forall|k: int|
                0 <= k < 2 && (#[trigger] self.child(n, k)) is Some ==> {
                    let c = self.child(n, k).unwrap() as int;
                    &&& c != n
                    &&& after.is_detached(c)
                    &&& self.is_present(c)
                    &&& after.shape_at(h, c) == self.shape_at(h, c)
                    &&& after.below(h, c) == self.below(h, c)
                    &&& !self.below(h, c).contains(n)
                    &&& self.below(h, n).contains(c)
                    &&& self.below(h, c).subset_of(self.below(h, n))
                },
            self.child(n, 0) is Some ==> self.child(n, 0) != self.child(n, 1),
    {
        self.lemma_shape_unfold(h, n);
        let first = self.take_child(n, 0);
        if self.child(n, 0) is Some {
            self.lemma_take_child_effect(h, n, 0, 2);
        }
        assert(first.child(n, 1) == self.child(n, 1));
        assert(first.slots.len() == self.slots.len());
        assert(first.is_present(n) && first.tag(n) == self.tag(n) && first.elem(n) == self.elem(n));
        if first.child(n, 1) is Some {
            let c = first.child(n, 1).unwrap() as int;
            assert(after.slots[c] == first.slots[c].with_parent(ParentId::Detached));
            assert(after.slots.len() == self.slots.len());
        }
        assert forall|k: int| 0 <= k < 2 && (#[trigger] self.child(n, k)) is Some implies {
            let c = self.child(n, k).unwrap() as int;
            &&& c != n
            &&& after.is_detached(c)
            &&& self.is_present(c)
            &&& after.shape_at(h, c) == self.shape_at(h, c)
            &&& after.below(h, c) == self.below(h, c)
            &&& !self.below(h, c).contains(n)
            &&& self.below(h, n).contains(c)
            &&& self.below(h, c).subset_of(self.below(h, n))
        } by {
            let c = self.child(n, k).unwrap() as int;
            self.lemma_shape_unfold(h, c);
            assert(!self.below(h, c).contains(n)) by {
                if self.below(h, c).contains(n) {
                    self.lemma_below(h, c, n);
                }
            }
            assert forall|j: int| #[trigger] self.below(h, c).contains(j) implies self.same_content(
                after,
                j,
            ) by {
                self.lemma_below(h, c, j);
            }
            self.lemma_shape_frame(h, after, h, c);
        }
    }

    /// What lies below the root of one detached subtree does not lie below
    /// the root of another.
    pub proof fn lemma_detached_apart(self, h: Seq<nat>, a: int, b: int)
        requires
            self.linked(2),
            self.ranked(h),
            self.is_detached(a),
            self.is_detached(b),
            a != b,
        ensures
            forall|j: int| #[trigger] self.below(h, a).contains(j) ==> !self.below(h, b).contains(j),
            !self.below(h, a).contains(b),
            !self.below(h, b).contains(a),
            self.below(h, a).contains(a),
            self.below(h, b).contains(b),
    {
        assert forall|j: int| #[trigger] self.below(h, a).contains(j) implies !self.below(
            h,
            b,
        ).contains(j) by {
            self.lemma_branches_apart(h, a, b, j);
        }
        self.lemma_shape_unfold(h, a);
        self.lemma_shape_unfold(h, b);
        assert(self.below(h, a).contains(a));
        assert(self.below(h, b).contains(b));
        self.lemma_branches_apart(h, b, a, b);
    }

    /// Where the second of two detached subtrees has no first branch, the
    /// two are joined by making the first the first branch of the second.
    pub proof fn lemma_joined_onto_right(
        self,
        h: Seq<nat>,
        after: Self,
        k: Seq<nat>,
        l: int,
        r: int,
    )
        requires
            self.linked(2),
            self.ranked(h),
            self.is_detached(l),
            self.is_detached(r),
            l != r,
            self.child(r, 0) is None,
            after == self.put_child_tree(r, 0, l),
            after.linked(2),
            after.ranked(k),
        ensures
            self.joined_as(h, after, k, l, r, r),
    {
        self.lemma_put_child_tree_effect(r, 0, l, 2);
        self.lemma_detached_apart(h, l, r);
        self.lemma_shape_unfold(h, r);
        self.lemma_shape_unfold(h, l);
        after.lemma_shape_unfold(k, r);
        assert(after.slots[r].children() == self.slots[r].children().update(
            0,
            crate::node::ChildId { index: Some(l as usize) },
        ));
        assert(self.slots[r].children().len() == 2);
        assert(after.child(r, 0) == Some(l as usize));
        assert(after.child(r, 1) == self.child(r, 1));
        assert forall|j: int| #[trigger] self.below(h, l).contains(j) implies self.same_content(
            after,
            j,
        ) by {
            self.lemma_below(h, l, j);
        }
        self.lemma_shape_frame(h, after, k, l);
        if self.child(r, 1) is Some {
            let d = self.child(r, 1).unwrap() as int;
            assert forall|j: int| #[trigger] self.below(h, d).contains(j) implies self.same_content(
                after,
                j,
            ) by {
                self.lemma_below(h, d, j);
                assert(self.below(h, r).contains(j));
            }
            self.lemma_shape_frame(h, after, k, d);
        }
        let below_r = self.shape_at(h, r);
        assert(below_r.least() == self.elem(r));
        assert(below_r.without_least() == self.shape_of(h, self.child(r, 1)));
    }

    /// Where the least node of the second of two detached subtrees was
    /// detached, the two are joined by making them the branches of that
    /// node.
    pub proof fn lemma_joined_onto_least(
        self,
        h: Seq<nat>,
        cut: Self,
        g: Seq<nat>,
        half: Self,
        after: Self,
        k: Seq<nat>,
        l: int,
        r: int,
        m: int,
    )
        requires
            self.linked(2),
            self.ranked(h),
            self.is_detached(l),
            self.is_detached(r),
            l != r,
            cut.linked(2),
            cut.ranked(g),
            cut.slots.len() == self.slots.len(),
            cut.root == self.root,
            cut.pending == self.pending,
            self.detached_least(h, cut, g, r, m),
            self.untouched_beside(h, cut, r),
            self.keeps_nodes_but(cut, None),
            half == cut.put_child_tree(m, 0, l),
            half.linked(2),
            after == half.put_child_tree(m, 1, r),
            after.linked(2),
            after.ranked(k),
        ensures
            self.joined_as(h, after, k, l, r, m),
    {
        self.lemma_detached_apart(h, l, r);
        assert(cut.slots[l] == self.slots[l]);
        assert(m != l && m != r);
        assert(cut.slots[m].children().len() == 2);
        cut.lemma_put_child_tree_effect(m, 0, l, 2);
        assert(half.slots[m].children().len() == 2);
        assert(half.child(m, 1) is None);
        assert(half.child(m, 0) == Some(l as usize));
        half.lemma_put_child_tree_effect(m, 1, r, 2);
        assert(after.child(m, 0) == Some(l as usize));
        assert(after.child(m, 1) == Some(r as usize));
        after.lemma_shape_unfold(k, m);
        assert forall|j: int| #[trigger] self.below(h, l).contains(j) implies self.same_content(
            after,
            j,
        ) by {
            self.lemma_below(h, l, j);
            assert(cut.slots[j] == self.slots[j]);
        }
        self.lemma_shape_frame(h, after, k, l);
        assert forall|j: int| #[trigger] cut.below(g, r).contains(j) implies cut.same_content(
            after,
            j,
        ) by {
            cut.lemma_below(g, r, j);
            assert(self.below(h, r).contains(j));
        }
        cut.lemma_shape_frame(g, after, k, r);
    }

    /// The detached subtree at `n` is rebuilt within its own slots: what is
    /// left of it is the detached subtree at `rebuilt` and has the shape
    /// `shape`. No slot beside the subtree has changed.
    pub open spec fn rebuilt_as(
        self,
        h: Seq<nat>,
        after: Self,
        k: Seq<nat>,
        n: int,
        rebuilt: Option<int>,
        shape: Shape<T>,
    ) -> bool {
        &&& after.slots.len() == self.slots.len()
        &&& after.root == self.root
        &&& match rebuilt {
            Some(r) => {
                &&& after.is_detached(r)
                &&& after.shape_at(k, r) == shape
                &&& self.below(h, n).contains(r)
                &&& after.below(k, r).subset_of(self.below(h, n))
            },
            None => shape is Leaf,
        }
        &&& self.untouched_beside(h, after, n)
    }

    /// A detached root with two children is replaced by what its children
    /// are joined to.
    pub proof fn lemma_replaced_by_joined(
        self,
        h: Seq<nat>,
        taken: Self,
        joined: Self,
        g: Seq<nat>,
        after: Self,
        k: Seq<nat>,
        n: int,
        m: int,
    )
        requires
            self.linked(2),
            self.ranked(h),
            self.is_detached(n),
            self.child(n, 0) is Some,
            self.child(n, 1) is Some,
            taken == self.take_child(n, 0).take_child(n, 1),
            taken.linked(2),
            taken.ranked(h),
            taken.joined_as(
                h,
                joined,
                g,
                self.child(n, 0).unwrap() as int,
                self.child(n, 1).unwrap() as int,
                m,
            ),
            joined.linked(2),
            joined.ranked(g),
            after == joined.discard(n),
            after.linked(2),
            after.ranked(k),
        ensures
            joined.is_detached(n),
            self.consumed(h, after, n, Some(n)),
            self.rebuilt_as(
                h,
                after,
                k,
                n,
                Some(m),
                Shape::joined(
                    self.shape_of(h, self.child(n, 0)),
                    self.shape_of(h, self.child(n, 1)),
                ),
            ),
    {
        let l = self.child(n, 0).unwrap() as int;
        let r = self.child(n, 1).unwrap() as int;
        self.lemma_children_taken(h, n, taken);
        assert(taken.is_detached(n) && taken.is_detached(l) && taken.is_detached(r));
        taken.lemma_detached_apart(h, n, l);
        taken.lemma_detached_apart(h, n, r);
        assert(joined.slots[n] == taken.slots[n]);
        joined.lemma_discard_effect(n);
        self.lemma_shape_unfold(h, l);
        self.lemma_shape_unfold(h, r);
        assert(!joined.below(g, m).contains(n));
        assert forall|j: int| #[trigger] joined.below(g, m).contains(j) implies joined.same_content(
            after,
            j,
        ) by {
            joined.lemma_below(g, m, j);
        }
        joined.lemma_shape_frame(g, after, k, m);
        assert forall|j: int|
            0 <= j < self.slots.len() && !self.below(h, n).contains(j) implies #[trigger] after.slots[j]
            == self.slots[j] by {
            assert(taken.slots[j] == self.slots[j]);
            assert(joined.slots[j] == taken.slots[j]);
        }
    }

    /// A detached root with at most one child is replaced by that child,
    /// or by nothing.
    pub proof fn lemma_replaced_by_child(
        self,
        h: Seq<nat>,
        taken: Self,
        after: Self,
        k: Seq<nat>,
        n: int,
    )
        requires
            self.linked(2),
            self.ranked(h),
            self.is_detached(n),
            self.child(n, 0) is None || self.child(n, 1) is None,
            taken == self.take_child(n, 0).take_child(n, 1),
            taken.linked(2),
            taken.ranked(h),
            after == taken.discard(n),
            after.linked(2),
            after.ranked(k),
        ensures
            self.consumed(h, after, n, Some(n)),
            self.rebuilt_as(
                h,
                after,
                k,
                n,
                if self.child(n, 0) is Some {
                    Some(self.child(n, 0).unwrap() as int)
                } else if self.child(n, 1) is Some {
                    Some(self.child(n, 1).unwrap() as int)
                } else {
                    None
                },
                Shape::joined(
                    self.shape_of(h, self.child(n, 0)),
                    self.shape_of(h, self.child(n, 1)),
                ),
            ),
    {
        self.lemma_children_taken(h, n, taken);
        taken.lemma_discard_effect(n);
        let k0: int = if self.child(n, 0) is Some {
            0
        } else {
            1
        };
        if self.child(n, k0) is Some {
            let c = self.child(n, k0).unwrap() as int;
            self.lemma_shape_unfold(h, c);
            assert forall|j: int| #[trigger] taken.below(h, c).contains(j) implies taken.same_content(
                after,
                j,
            ) by {
                taken.lemma_below(h, c, j);
            }
            taken.lemma_shape_frame(h, after, k, c);
        }
    }

    /// The shape below the node at `n` where the shape at branch `b` is
    /// replaced by `shape`.
    pub open spec fn shape_with(self, h: Seq<nat>, n: int, b: int, shape: Shape<T>) -> Shape<T> {
        if b == 0 {
            Shape::fork(shape, self.elem(n), self.shape_of(h, self.child(n, 1)))
        } else {
            Shape::fork(self.shape_of(h, self.child(n, 0)), self.elem(n), shape)
        }
    }

    /// Where the detached subtree at a branch of a detached root is
    /// rebuilt and attached again, the root's subtree is rebuilt with the
    /// root in place.
    pub proof fn lemma_rebuilt_below(
        self,
        h: Seq<nat>,
        taken: Self,
        inner: Self,
        g: Seq<nat>,
        after: Self,
        k: Seq<nat>,
        n: int,
        b: int,
        rebuilt: Option<int>,
        gone: Option<int>,
        shape: Shape<T>,
    )
        requires
            self.linked(2),
            self.ranked(h),
            self.is_detached(n),
            0 <= b < 2,
            self.child(n, b) is Some,
            taken == self.take_child(n, b),
            taken.linked(2),
            taken.ranked(h),
            taken.rebuilt_as(h, inner, g, self.child(n, b).unwrap() as int, rebuilt, shape),
            taken.consumed(h, inner, self.child(n, b).unwrap() as int, gone),
            inner.linked(2),
            inner.ranked(g),
            after == match rebuilt {
                Some(r) => inner.put_child_tree(n, b, r),
                None => inner,
            },
            after.linked(2),
            after.ranked(k),
        ensures
            self.rebuilt_as(h, after, k, n, Some(n), self.shape_with(h, n, b, shape)),
            self.consumed(h, after, n, gone),
    {
        let c = self.child(n, b).unwrap() as int;
        self.lemma_shape_unfold(h, n);
        self.lemma_shape_unfold(h, c);
        self.lemma_take_child_effect(h, n, b, 2);
        assert(self.slots[n].children().len() == 2);
        assert(!self.below(h, c).contains(n)) by {
            if self.below(h, c).contains(n) {
                self.lemma_below(h, c, n);
            }
        }
        assert forall|j: int| #[trigger] self.below(h, c).contains(j) implies self.same_content(
            taken,
            j,
        ) by {
            self.lemma_below(h, c, j);
        }
        self.lemma_shape_frame(h, taken, h, c);
        assert(inner.slots[n] == taken.slots[n]);
        assert(inner.child(n, b) is None);
        assert(inner.child(n, 1 - b) == self.child(n, 1 - b));
        if rebuilt is Some {
            let r = rebuilt.unwrap();
            assert(r != n);
            inner.lemma_put_child_tree_effect(n, b, r, 2);
            assert(inner.slots[n].children().len() == 2);
            assert(after.child(n, b) == Some(r as usize));
            assert forall|j: int| #[trigger] inner.below(g, r).contains(j) implies inner.same_content(
                after,
                j,
            ) by {
                inner.lemma_below(g, r, j);
                assert(taken.below(h, c).contains(j));
            }
            inner.lemma_shape_frame(g, after, k, r);
        }
        assert(after.child(n, 1 - b) == self.child(n, 1 - b));
        if self.child(n, 1 - b) is Some {
            let d = self.child(n, 1 - b).unwrap() as int;
            self.lemma_shape_unfold(h, d);
            assert forall|j: int| #[trigger] self.below(h, d).contains(j) implies self.same_content(
                after,
                j,
            ) by {
                self.lemma_branches_apart(h, d, c, j);
                self.lemma_below(h, d, j);
                assert(taken.slots[j] == self.slots[j]);
                assert(inner.slots[j] == taken.slots[j]);
            }
            self.lemma_shape_frame(h, after, k, d);
        }
        after.lemma_shape_unfold(k, n);
        assert forall|j: int|
            0 <= j < self.slots.len() && !self.below(h, n).contains(j) implies #[trigger] after.slots[j]
            == self.slots[j] by {
            assert(taken.slots[j] == self.slots[j]);
            assert(inner.slots[j] == taken.slots[j]);
        }
    }
}

} // verus!
