//! Reading a tree of branch factor two as a binary tree: the shape below a
//! node, the positions that the shape is made of, and what leaves both as
//! they are.

use crate::model::TreeView;
use crate::shape::Shape;
use vstd::prelude::*;

verus! {

/// The height of position `i`, or 0 where `h` has no such position.
pub open spec fn height_at(h: Seq<nat>, i: int) -> nat {
    if 0 <= i < h.len() {
        h[i]
    } else {
        0
    }
}

impl<T> TreeView<T> {
    /// The child at branch `k` of the node at `i`, if it lies below `i` by
    /// the heights `h`.
    pub open spec fn lower_child(self, h: Seq<nat>, i: int, k: int) -> Option<int> {
        match self.child(i, k) {
            Some(c) => if c < h.len() && h[c as int] < h[i] {
                Some(c as int)
            } else {
                None
            },
            None => None,
        }
    }

    /// The binary tree that the node at `i` and all below it make up.
    pub open spec fn shape_at(self, h: Seq<nat>, i: int) -> Shape<T>
        decreases height_at(h, i),
    {
        if self.is_present(i) && i < h.len() {
            Shape::Fork {
                left: Box::new(
                    match self.lower_child(h, i, 0) {
                        Some(c) => self.shape_at(h, c),
                        None => Shape::Leaf,
                    },
                ),
                elem: self.elem(i),
                right: Box::new(
                    match self.lower_child(h, i, 1) {
                        Some(c) => self.shape_at(h, c),
                        None => Shape::Leaf,
                    },
                ),
            }
        } else {
            Shape::Leaf
        }
    }

    /// The binary tree below an optional position.
    pub open spec fn shape_of(self, h: Seq<nat>, at: Option<usize>) -> Shape<T> {
        match at {
            Some(i) => self.shape_at(h, i as int),
            None => Shape::Leaf,
        }
    }

    /// The positions at and below an optional position.
    pub open spec fn below_of(self, h: Seq<nat>, at: Option<usize>) -> Set<int> {
        match at {
            Some(i) => self.below(h, i as int),
            None => Set::empty(),
        }
    }

    /// The positions of the node at `i` and of all nodes below it.
    pub open spec fn below(self, h: Seq<nat>, i: int) -> Set<int>
        decreases height_at(h, i),
    {
        if self.is_present(i) && i < h.len() {
            (match self.lower_child(h, i, 0) {
                Some(c) => self.below(h, c),
                None => Set::empty(),
            }).union(
                match self.lower_child(h, i, 1) {
                    Some(c) => self.below(h, c),
                    None => Set::empty(),
                },
            ).insert(i)
        } else {
            Set::empty()
        }
    }

    /// With valid heights every child lies below its owner.
    pub proof fn lemma_lower_child(self, h: Seq<nat>, i: int, k: int)
        requires
            self.linked(2),
            self.ranked(h),
            0 <= i < self.slots.len(),
            0 <= k < 2,
        ensures
            self.lower_child(h, i, k) == match self.child(i, k) {
                Some(c) => Some(c as int),
                None => None,
            },
            self.child(i, k) is Some ==> self.is_present(self.child(i, k).unwrap() as int)
                && self.parent_of(self.child(i, k).unwrap() as int) == Some(i),
    {
        assert(self.slots[i].children().len() == 2);
        assert(self.edge_ranked(h, i, k));
        assert(self.link_ok(i, k));
    }

    /// What lies below `i` is a node, is not higher than `i`, and is `i`
    /// or has its owner below `i` too.
    pub proof fn lemma_below(self, h: Seq<nat>, i: int, j: int)
        requires
            self.linked(2),
            self.ranked(h),
            self.below(h, i).contains(j),
        ensures
            self.is_present(i),
            self.is_present(j),
            h[j] <= h[i],
            j != i ==> self.parent_of(j) is Some && self.below(h, i).contains(
                self.parent_of(j).unwrap(),
            ) && h[j] < h[self.parent_of(j).unwrap()],
        decreases height_at(h, i),
    {
        if j != i {
            self.lemma_lower_child(h, i, 0);
            self.lemma_lower_child(h, i, 1);
            let k: int = if self.lower_child(h, i, 0) is Some && self.below(
                h,
                self.lower_child(h, i, 0).unwrap(),
            ).contains(j) {
                0
            } else {
                1
            };
            let c = self.lower_child(h, i, k).unwrap();
            assert(self.below(h, c).contains(j));
            self.lemma_below(h, c, j);
            assert(self.edge_ranked(h, i, k));
            if j != c {
                assert(self.below(h, i).contains(self.parent_of(j).unwrap()));
            }
        }
    }

    /// Where a position lies below two nodes, one of the two lies below the
    /// other.
    pub proof fn lemma_below_comparable(self, h: Seq<nat>, a: int, b: int, j: int)
        requires
            self.linked(2),
            self.ranked(h),
            self.below(h, a).contains(j),
            self.below(h, b).contains(j),
        ensures
            self.below(h, b).contains(a) || self.below(h, a).contains(b),
        decreases h[a] - h[j],
    {
        self.lemma_below(h, a, j);
        self.lemma_below(h, b, j);
        if j != a && j != b {
            let p = self.parent_of(j).unwrap();
            self.lemma_below(h, a, p);
            self.lemma_below_comparable(h, a, b, p);
        }
    }

    /// The shape below a node is made of the node's element and the shapes
    /// below its children, and so are the positions.
    pub proof fn lemma_shape_unfold(self, h: Seq<nat>, i: int)
        requires
            self.linked(2),
            self.ranked(h),
            self.is_present(i),
        ensures
            self.shape_at(h, i) == (Shape::Fork {
                left: Box::new(self.shape_of(h, self.child(i, 0))),
                elem: self.elem(i),
                right: Box::new(self.shape_of(h, self.child(i, 1))),
            }),
            self.below(h, i) == self.below_of(h, self.child(i, 0)).union(
                self.below_of(h, self.child(i, 1)),
            ).insert(i),
            self.child(i, 0) is Some ==> self.is_present(self.child(i, 0).unwrap() as int)
                && self.parent_of(self.child(i, 0).unwrap() as int) == Some(i)
                && h[self.child(i, 0).unwrap() as int] < h[i],
            self.child(i, 1) is Some ==> self.is_present(self.child(i, 1).unwrap() as int)
                && self.parent_of(self.child(i, 1).unwrap() as int) == Some(i)
                && h[self.child(i, 1).unwrap() as int] < h[i],
            self.child(i, 0) is Some ==> self.child(i, 0) != self.child(i, 1),
    {
        self.lemma_lower_child(h, i, 0);
        self.lemma_lower_child(h, i, 1);
        assert(self.slots[i].children().len() == 2);
        assert(self.link_ok(i, 0));
        assert(self.link_ok(i, 1));
        assert(self.edge_ranked(h, i, 0));
        assert(self.edge_ranked(h, i, 1));
    }

    /// What lies below a child of `n` does not lie below another child of
    /// `n`, nor below a node that nothing owns, other than `n` and what
    /// lies above `n`.
    pub proof fn lemma_branches_apart(self, h: Seq<nat>, c: int, d: int, j: int)
        requires
            self.linked(2),
            self.ranked(h),
            self.is_present(c),
            self.is_present(d),
            c != d,
            self.parent_of(c) == self.parent_of(d) || (self.parent_of(c) is None && self.parent_of(
                d,
            ) is Some && !self.below(h, c).contains(self.parent_of(d).unwrap())),
            self.below(h, c).contains(j),
        ensures
            !self.below(h, d).contains(j),
    {
        if self.below(h, d).contains(j) {
            self.lemma_below_comparable(h, c, d, j);
            if self.below(h, d).contains(c) {
                self.lemma_below(h, d, c);
                let p = self.parent_of(c).unwrap();
                self.lemma_below(h, d, p);
                self.lemma_owner_is_higher(h, d, 2);
            } else {
                self.lemma_below(h, c, d);
                let p = self.parent_of(d).unwrap();
                self.lemma_below(h, c, p);
                self.lemma_owner_is_higher(h, c, 2);
            }
        }
    }

    /// The node at `j` is in `other` what it is in `self`, but for its
    /// parent tag: a node with the same element and the same children.
    pub open spec fn same_content(self, other: Self, j: int) -> bool {
        &&& other.is_present(j)
        &&& other.elem(j) == self.elem(j)
        &&& other.slots[j].children() == self.slots[j].children()
    }

    /// The shape below `i` stays as it is as long as the nodes below `i`
    /// keep their elements and their children.
    pub proof fn lemma_shape_frame(self, h: Seq<nat>, other: Self, g: Seq<nat>, i: int)
        requires
            self.linked(2),
            self.ranked(h),
            other.linked(2),
            other.ranked(g),
            self.is_present(i),
            forall|j: int| #[trigger] self.below(h, i).contains(j) ==> self.same_content(other, j),
        ensures
            other.shape_at(g, i) == self.shape_at(h, i),
            other.below(g, i) == self.below(h, i),
        decreases height_at(h, i),
    {
        assert(self.below(h, i).contains(i));
        assert(self.same_content(other, i));
        self.lemma_lower_child(h, i, 0);
        self.lemma_lower_child(h, i, 1);
        other.lemma_lower_child(g, i, 0);
        other.lemma_lower_child(g, i, 1);
        assert(other.child(i, 0) == self.child(i, 0));
        assert(other.child(i, 1) == self.child(i, 1));
        if self.lower_child(h, i, 0) is Some {
            let c = self.lower_child(h, i, 0).unwrap();
            assert forall|j: int| #[trigger] self.below(h, c).contains(j) implies self.same_content(
                other,
                j,
            ) by {
                assert(self.below(h, i).contains(j));
            }
            self.lemma_shape_frame(h, other, g, c);
        }
        if self.lower_child(h, i, 1) is Some {
            let c = self.lower_child(h, i, 1).unwrap();
            assert forall|j: int| #[trigger] self.below(h, c).contains(j) implies self.same_content(
                other,
                j,
            ) by {
                assert(self.below(h, i).contains(j));
            }
            self.lemma_shape_frame(h, other, g, c);
        }
        assert(other.below(g, i) =~= self.below(h, i));
    }

    /// The shape below a node of a collected tree is the shape below the
    /// position that the node comes from.
    pub proof fn lemma_shape_relocated(
        self,
        h: Seq<nat>,
        start: Self,
        g: Seq<nat>,
        origin: Seq<int>,
        i: int,
    )
        requires
            self.linked(2),
            self.ranked(h),
            self.no_garbage(),
            start.linked(2),
            start.ranked(g),
            self.kept_from(start, origin, 2),
            0 <= i < self.slots.len(),
        ensures
            self.shape_at(h, i) == start.shape_at(g, origin[i]),
        decreases height_at(h, i),
    {
        let o = origin[i];
        assert(!self.slots[i].is_dead());
        assert(self.node_kept(start, origin, i, 2));
        self.lemma_lower_child(h, i, 0);
        self.lemma_lower_child(h, i, 1);
        start.lemma_lower_child(g, o, 0);
        start.lemma_lower_child(g, o, 1);
        if self.child(i, 0) is Some {
            let c = self.child(i, 0).unwrap() as int;
            assert(start.child(o, 0) == Some(origin[c] as usize));
            self.lemma_shape_relocated(h, start, g, origin, c);
        }
        if self.child(i, 1) is Some {
            let c = self.child(i, 1).unwrap() as int;
            assert(start.child(o, 1) == Some(origin[c] as usize));
            self.lemma_shape_relocated(h, start, g, origin, c);
        }
    }
}

} // verus!
