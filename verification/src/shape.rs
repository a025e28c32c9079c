//! Binary search trees as mathematical values: what an ordered set built
//! on a tree of branch factor two holds, and what insertion and removal do
//! to it.

use crate::order::{lemma_less_laws, less, total_order};
use vstd::prelude::*;

verus! {

/// A binary tree of elements.
pub enum Shape<T> {
    /// The tree without nodes.
    Leaf,
    /// A node with the trees at its two branches.
    Fork { left: Box<Shape<T>>, elem: T, right: Box<Shape<T>> },
}

impl<T: Ord> Shape<T> {
    /// A node with the given branches.
    pub open spec fn fork(left: Shape<T>, elem: T, right: Shape<T>) -> Shape<T> {
        Shape::Fork { left: Box::new(left), elem, right: Box::new(right) }
    }

    /// The elements of the tree.
    pub open spec fn contents(self) -> Set<T>
        decreases self,
    {
        match self {
            Shape::Leaf => Set::empty(),
            Shape::Fork { left, elem, right } => left.contents().union(right.contents()).insert(
                elem,
            ),
        }
    }

    /// Every element of the tree comes before `x`.
    pub open spec fn all_before(self, x: T) -> bool {
        forall|e: T| #[trigger] self.contents().contains(e) ==> less(e, x)
    }

    /// `x` comes before every element of the tree.
    pub open spec fn all_after(self, x: T) -> bool {
        forall|e: T| #[trigger] self.contents().contains(e) ==> less(x, e)
    }

    /// At every node, what is at the first branch comes before the node's
    /// element, and what is at the second branch comes after it.
    pub open spec fn ordered(self) -> bool
        decreases self,
    {
        match self {
            Shape::Leaf => true,
            Shape::Fork { left, elem, right } => {
                &&& left.ordered()
                &&& right.ordered()
                &&& left.all_before(elem)
                &&& right.all_after(elem)
            },
        }
    }

    /// The tree after `x` was inserted: where the search for `x` ends at an
    /// empty branch, `x` is put there; where it finds `x`, nothing changes.
    pub open spec fn inserted(self, x: T) -> Shape<T>
        decreases self,
    {
        match self {
            Shape::Leaf => Self::fork(Shape::Leaf, x, Shape::Leaf),
            Shape::Fork { left, elem, right } => if less(elem, x) {
                Self::fork(*left, elem, right.inserted(x))
            } else if less(x, elem) {
                Self::fork(left.inserted(x), elem, *right)
            } else {
                self
            },
        }
    }

    /// The element that is reached by going to the first branch as long as
    /// there is one.
    pub open spec fn least(self) -> T
        decreases self,
    {
        match self {
            Shape::Leaf => arbitrary(),
            Shape::Fork { left, elem, right } => if *left is Leaf {
                elem
            } else {
                left.least()
            },
        }
    }

    /// The tree without the node of its least element: what was at that
    /// node's second branch takes the node's place.
    pub open spec fn without_least(self) -> Shape<T>
        decreases self,
    {
        match self {
            Shape::Leaf => Shape::Leaf,
            Shape::Fork { left, elem, right } => if *left is Leaf {
                *right
            } else {
                Self::fork(left.without_least(), elem, *right)
            },
        }
    }

    /// What takes the place of a node that is removed: nothing if the node
    /// has no branch, the branch if it has one, and else the least element
    /// of the second branch, above the first branch and the rest of the
    /// second.
    pub open spec fn joined(left: Shape<T>, right: Shape<T>) -> Shape<T> {
        if right is Leaf {
            left
        } else if left is Leaf {
            right
        } else {
            Self::fork(left, right.least(), right.without_least())
        }
    }

    /// The tree after `x` was removed.
    pub open spec fn removed(self, x: T) -> Shape<T>
        decreases self,
    {
        match self {
            Shape::Leaf => Shape::Leaf,
            Shape::Fork { left, elem, right } => if less(elem, x) {
                Self::fork(*left, elem, right.removed(x))
            } else if less(x, elem) {
                Self::fork(left.removed(x), elem, *right)
            } else {
                Self::joined(*left, *right)
            },
        }
    }

    /// Whether the search for `x` ends at a node: it goes to the second
    /// branch where the node's element comes before `x`, to the first where
    /// `x` comes before the node's element, and ends where neither is so.
    pub open spec fn finds(self, x: T) -> bool
        decreases self,
    {
        match self {
            Shape::Leaf => false,
            Shape::Fork { left, elem, right } => if less(elem, x) {
                right.finds(x)
            } else if less(x, elem) {
                left.finds(x)
            } else {
                true
            },
        }
    }

    /// The number of nodes.
    pub open spec fn count(self) -> nat
        decreases self,
    {
        match self {
            Shape::Leaf => 0,
            Shape::Fork { left, elem, right } => left.count() + 1 + right.count(),
        }
    }

    /// The elements in the order of a walk that visits the first branch,
    /// then the node, then the second branch.
    pub open spec fn inorder(self) -> Seq<T>
        decreases self,
    {
        match self {
            Shape::Leaf => Seq::empty(),
            Shape::Fork { left, elem, right } => left.inorder().push(elem) + right.inorder(),
        }
    }

    /// Insertion adds the element and keeps the order.
    pub proof fn lemma_inserted(self, x: T)
        requires
            total_order::<T>(),
            self.ordered(),
        ensures
            self.inserted(x).ordered(),
            self.inserted(x).contents() == self.contents().insert(x),
        decreases self,
    {
        lemma_less_laws::<T>();
        match self {
            Shape::Leaf => {
                assert(self.inserted(x).contents() =~= self.contents().insert(x));
            },
            Shape::Fork { left, elem, right } => {
                if less(elem, x) {
                    right.lemma_inserted(x);
                    assert(self.inserted(x).contents() =~= self.contents().insert(x));
                } else if less(x, elem) {
                    left.lemma_inserted(x);
                    assert(self.inserted(x).contents() =~= self.contents().insert(x));
                } else {
                    assert(x == elem);
                    assert(self.inserted(x).contents() =~= self.contents().insert(x));
                }
            },
        }
    }

    /// The least element is an element and comes before all others; the
    /// tree without it holds the others, in order.
    pub proof fn lemma_least(self)
        requires
            total_order::<T>(),
            self.ordered(),
            self is Fork,
        ensures
            self.contents().contains(self.least()),
            forall|e: T| #[trigger]
                self.contents().contains(e) ==> e == self.least() || less(self.least(), e),
            self.without_least().contents() == self.contents().remove(self.least()),
            self.without_least().ordered(),
        decreases self,
    {
        lemma_less_laws::<T>();
        match self {
            Shape::Leaf => {},
            Shape::Fork { left, elem, right } => {
                if *left is Leaf {
                    assert(left.contents() =~= Set::<T>::empty());
                    assert(!right.contents().contains(elem)) by {
                        if right.contents().contains(elem) {
                            assert(less(elem, elem));
                        }
                    }
                    assert forall|e: T| #[trigger] self.contents().contains(e) implies e
                        == self.least() || less(self.least(), e) by {
                        if right.contents().contains(e) {
                            assert(less(elem, e));
                        }
                    }
                    assert(self.without_least().contents() =~= self.contents().remove(
                        self.least(),
                    ));
                } else {
                    left.lemma_least();
                    let m = left.least();
                    assert(left.contents().contains(m));
                    assert(less(m, elem));
                    assert(!right.contents().contains(m)) by {
                        if right.contents().contains(m) {
                            assert(less(elem, m));
                        }
                    }
                    assert forall|e: T| #[trigger] self.contents().contains(e) implies e == m
                        || less(m, e) by {
                        if right.contents().contains(e) {
                            assert(less(elem, e));
                        }
                    }
                    let rest = left.without_least();
                    assert(rest.all_before(elem)) by {
                        assert forall|e: T| #[trigger] rest.contents().contains(e) implies less(
                            e,
                            elem,
                        ) by {
                            assert(left.contents().contains(e));
                        }
                    }
                    assert(self.without_least().contents() =~= self.contents().remove(
                        self.least(),
                    ));
                }
            },
        }
    }

    /// What takes the place of a removed node holds the elements of the
    /// node's branches, in order.
    pub proof fn lemma_joined(left: Shape<T>, elem: T, right: Shape<T>)
        requires
            total_order::<T>(),
            Self::fork(left, elem, right).ordered(),
        ensures
            Self::joined(left, right).ordered(),
            Self::joined(left, right).contents() == left.contents().union(right.contents()),
            !left.contents().contains(elem),
            !right.contents().contains(elem),
    {
        lemma_less_laws::<T>();
        if right is Leaf {
            assert(Self::joined(left, right).contents() =~= left.contents().union(
                right.contents(),
            ));
        } else if left is Leaf {
            assert(Self::joined(left, right).contents() =~= left.contents().union(
                right.contents(),
            ));
        } else {
            right.lemma_least();
            let m = right.least();
            assert(right.contents().contains(m));
            assert(less(elem, m));
            assert(Self::joined(left, right).contents() =~= left.contents().union(
                right.contents(),
            ));
            assert forall|e: T| #[trigger] left.contents().contains(e) implies less(e, m) by {
                assert(less(e, elem));
            }
        }
    }

    /// Removal takes the element away and keeps the order.
    pub proof fn lemma_removed(self, x: T)
        requires
            total_order::<T>(),
            self.ordered(),
        ensures
            self.removed(x).ordered(),
            self.removed(x).contents() == self.contents().remove(x),
        decreases self,
    {
        lemma_less_laws::<T>();
        match self {
            Shape::Leaf => {
                assert(self.removed(x).contents() =~= self.contents().remove(x));
            },
            Shape::Fork { left, elem, right } => {
                Self::lemma_joined(*left, elem, *right);
                if less(elem, x) {
                    right.lemma_removed(x);
                    assert(!left.contents().contains(x)) by {
                        if left.contents().contains(x) {
                            assert(less(x, elem));
                        }
                    }
                    assert(self.removed(x).contents() =~= self.contents().remove(x));
                } else if less(x, elem) {
                    left.lemma_removed(x);
                    assert(!right.contents().contains(x)) by {
                        if right.contents().contains(x) {
                            assert(less(elem, x));
                        }
                    }
                    assert(self.removed(x).contents() =~= self.contents().remove(x));
                } else {
                    assert(x == elem);
                    assert(self.removed(x).contents() =~= self.contents().remove(x));
                }
            },
        }
    }

    /// Each element of `s` comes before the next.
    pub open spec fn increasing(s: Seq<T>) -> bool {
        forall|i: int, j: int| 0 <= i < j < s.len() ==> less(#[trigger] s[i], #[trigger] s[j])
    }

    /// The walk in order visits the elements of an ordered tree, each one
    /// once, from the least to the greatest.
    pub proof fn lemma_inorder(self)
        requires
            total_order::<T>(),
            self.ordered(),
        ensures
            Self::increasing(self.inorder()),
            self.inorder().to_set() == self.contents(),
        decreases self,
    {
        lemma_less_laws::<T>();
        match self {
            Shape::Leaf => {
                assert(self.inorder().to_set() =~= self.contents());
            },
            Shape::Fork { left, elem, right } => {
                left.lemma_inorder();
                right.lemma_inorder();
                let l = left.inorder();
                let r = right.inorder();
                let s = self.inorder();
                assert forall|i: int| 0 <= i < l.len() implies left.contents().contains(
                    #[trigger] l[i],
                ) by {
                    assert(l.to_set().contains(l[i]));
                }
                assert forall|i: int| 0 <= i < r.len() implies right.contents().contains(
                    #[trigger] r[i],
                ) by {
                    assert(r.to_set().contains(r[i]));
                }
                assert forall|i: int, j: int| 0 <= i < j < s.len() implies less(
                    #[trigger] s[i],
                    #[trigger] s[j],
                ) by {
                    if i < l.len() {
                        assert(s[i] == l[i]);
                        assert(less(l[i], elem));
                    } else if i > l.len() {
                        assert(s[i] == r[i - l.len() - 1]);
                    }
                    if j < l.len() {
                        assert(s[j] == l[j]);
                    } else if j > l.len() {
                        assert(s[j] == r[j - l.len() - 1]);
                        assert(less(elem, r[j - l.len() - 1]));
                    }
                }
                assert forall|e: T| s.to_set().contains(e) <==> self.contents().contains(e) by {
                    if s.to_set().contains(e) {
                        let i = choose|i: int| 0 <= i < s.len() && s[i] == e;
                        if i < l.len() {
                            assert(s[i] == l[i]);
                        } else if i > l.len() {
                            assert(s[i] == r[i - l.len() - 1]);
                        }
                    }
                    if self.contents().contains(e) {
                        if e == elem {
                            assert(s[l.len() as int] == e);
                        } else if left.contents().contains(e) {
                            assert(l.to_set().contains(e));
                            let i = choose|i: int| 0 <= i < l.len() && l[i] == e;
                            assert(s[i] == e);
                        } else {
                            assert(r.to_set().contains(e));
                            let i = choose|i: int| 0 <= i < r.len() && r[i] == e;
                            assert(s[l.len() + 1 + i] == e);
                        }
                    }
                }
                assert(s.to_set() =~= self.contents());
            },
        }
    }

    /// In an ordered tree the search for `x` ends at a node exactly if the
    /// tree holds `x`.
    pub proof fn lemma_finds(self, x: T)
        requires
            total_order::<T>(),
            self.ordered(),
        ensures
            self.finds(x) == self.contents().contains(x),
        decreases self,
    {
        lemma_less_laws::<T>();
        match self {
            Shape::Leaf => {},
            Shape::Fork { left, elem, right } => {
                left.lemma_finds(x);
                right.lemma_finds(x);
                if less(elem, x) {
                    if left.contents().contains(x) {
                        assert(less(x, elem));
                    }
                } else if less(x, elem) {
                    if right.contents().contains(x) {
                        assert(less(elem, x));
                    }
                }
            },
        }
    }

    /// Inserting what the search finds changes nothing, and inserting what
    /// it does not find adds one node.
    pub proof fn lemma_inserted_count(self, x: T)
        ensures
            self.finds(x) ==> self.inserted(x) == self,
            self.inserted(x).count() == if self.finds(x) {
                self.count()
            } else {
                self.count() + 1
            },
        decreases self,
    {
        match self {
            Shape::Leaf => {
                assert(Self::fork(Shape::Leaf, x, Shape::Leaf).count() == 1) by {
                    assert(Shape::<T>::Leaf.count() == 0);
                }
            },
            Shape::Fork { left, elem, right } => {
                left.lemma_inserted_count(x);
                right.lemma_inserted_count(x);
            },
        }
    }

    /// The tree without its least node has one node less.
    pub proof fn lemma_without_least_count(self)
        requires
            self is Fork,
        ensures
            self.without_least().count() + 1 == self.count(),
        decreases self,
    {
        match self {
            Shape::Leaf => {},
            Shape::Fork { left, elem, right } => {
                if !(*left is Leaf) {
                    left.lemma_without_least_count();
                }
            },
        }
    }

    /// Removing what the search does not find changes nothing, and
    /// removing what it finds takes one node away.
    pub proof fn lemma_removed_count(self, x: T)
        ensures
            !self.finds(x) ==> self.removed(x) == self,
            self.removed(x).count() == if self.finds(x) {
                (self.count() - 1) as nat
            } else {
                self.count()
            },
            self.finds(x) ==> self.count() > 0,
        decreases self,
    {
        match self {
            Shape::Leaf => {},
            Shape::Fork { left, elem, right } => {
                left.lemma_removed_count(x);
                right.lemma_removed_count(x);
                if !less(elem, x) && !less(x, elem) {
                    if !(*right is Leaf) && !(*left is Leaf) {
                        right.lemma_without_least_count();
                    }
                }
            },
        }
    }
}

} // verus!
