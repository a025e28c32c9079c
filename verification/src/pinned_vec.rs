//! A growable store made of a chain of fixed-size segments.
//!
//! Appending never moves an element that is already stored: a segment is
//! filled up to the size it was reserved with, and after that a fresh segment
//! is linked behind it. Elements are addressed by their position in the whole
//! chain.

use vstd::prelude::*;

verus! {

/// Error for addressing a position at or beyond the end of a [`PinnedVec`].
#[derive(Debug, Copy, Clone, PartialEq, Eq, Structural)]
pub struct OutOfBounds(pub usize);

/// A sequence of `T` kept in a chain of segments.
///
/// The view of the store is the concatenation of its segments, in order.
pub struct PinnedVec<T> {
    vec: Vec<T>,
    next: Option<Box<PinnedVec<T>>>,
    extension_size: usize,
}

impl<T> View for PinnedVec<T> {
    type V = Seq<T>;

    closed spec fn view(&self) -> Seq<T> {
        self.elements()
    }
}

impl<T> PinnedVec<T> {
    /// The elements of this segment, followed by those of the segments
    /// linked behind it.
    pub closed spec fn elements(&self) -> Seq<T>
        decreases self,
    {
        match self.next {
            Some(rest) => self.vec@ + rest.elements(),
            None => self.vec@,
        }
    }

    /// The segments agree on their size, the size is positive, and the
    /// number of stored elements fits in a `usize`.
    pub closed spec fn wf(&self) -> bool
        decreases self,
    {
        &&& self.extension_size > 0
        &&& self@.len() <= usize::MAX
        &&& match self.next {
            Some(rest) => rest.wf() && rest.extension_size == self.extension_size,
            None => true,
        }
    }

    /// The number of segments in the chain.
    pub closed spec fn segments(&self) -> nat
        decreases self,
    {
        match self.next {
            Some(rest) => 1 + rest.segments(),
            None => 1,
        }
    }

    /// A well-formed store holds no more elements than a `usize` counts.
    pub proof fn lemma_len_fits(&self)
        requires
            self.wf(),
        ensures
            self@.len() <= usize::MAX,
    {
    }

    /// The size that each fresh segment is reserved with.
    pub closed spec fn spec_extension_size(&self) -> usize {
        self.extension_size
    }

    /// An empty store whose segments hold `extension_size` elements each.
    pub fn new(extension_size: usize) -> (store: Self)
        requires
            extension_size > 0,
        ensures
            store.wf(),
            store@ == Seq::<T>::empty(),
            store.spec_extension_size() == extension_size,
            store.segments() == 1,
    {
        PinnedVec { vec: Vec::with_capacity(extension_size), next: None, extension_size }
    }

    /// Appends `elem` behind the last element.
    pub fn push(&mut self, elem: T)
        requires
            old(self).wf(),
            old(self)@.len() < usize::MAX,
        ensures
            final(self).wf(),
            final(self)@ == old(self)@.push(elem),
            final(self).spec_extension_size() == old(self).spec_extension_size(),
        decreases *old(self),
    {
        let here = self.next.is_none() && self.vec.len() < self.extension_size;
        if here {
            self.vec.push(elem);
        } else {
            let ghost head = self.vec@;
            match &mut self.next {
                Some(rest) => {
                    let ghost tail = rest.elements();
                    assert(old(self)@ == head + tail);
                    assert(rest.wf());
                    assert(tail.len() < usize::MAX) by {
                        assert((head + tail).len() == head.len() + tail.len());
                    }
                    rest.push(elem);
                    assert(head + tail.push(elem) =~= (head + tail).push(elem));
                },
                none_slot => {
                    let mut vec = Vec::with_capacity(self.extension_size);
                    vec.push(elem);
                    let fresh = PinnedVec { vec, next: None, extension_size: self.extension_size };
                    assert(fresh.elements() =~= seq![elem]);
                    assert(fresh.wf());
                    assert(head + seq![elem] =~= head.push(elem));
                    *none_slot = Some(Box::new(fresh));
                },
            }
        }
    }

    /// The number of stored elements.
    pub fn len(&self) -> (n: usize)
        requires
            self.wf(),
        ensures
            n == self@.len(),
        decreases self,
    {
        match &self.next {
            Some(rest) => self.vec.len() + rest.len(),
            None => self.vec.len(),
        }
    }

    /// Removes the last element and returns it, or returns `None` when the
    /// store is empty.
    pub fn pop(&mut self) -> (popped: Option<T>)
        requires
            old(self).wf(),
        ensures
            final(self).wf(),
            final(self).spec_extension_size() == old(self).spec_extension_size(),
            old(self)@.len() == 0 ==> popped is None && final(self)@ == old(self)@,
            old(self)@.len() > 0 ==> popped == Some(old(self)@.last()) && final(self)@ == old(self)@.drop_last(),
        decreases *old(self),
    {
        let ghost head = self.vec@;
        let from_rest = match &mut self.next {
            Some(rest) => {
                let ghost tail = rest.elements();
                let popped = rest.pop();
                proof {
                    if tail.len() > 0 {
                        assert(head + tail.drop_last() =~= (head + tail).drop_last());
                        assert((head + tail).last() == tail.last());
                    }
                }
                popped
            },
            None => None,
        };
        match from_rest {
            Some(elem) => Some(elem),
            None => {
                proof {
                    if self.next is Some {
                        assert(head + self.next.unwrap().elements() =~= head);
                    }
                }
                self.next = None;
                self.vec.pop()
            },
        }
    }

    /// The element at position `index`, or `OutOfBounds` when there is none.
    pub fn index(&self, index: usize) -> (found: Result<&T, OutOfBounds>)
        requires
            self.wf(),
        ensures
            index < self@.len() ==> found == Ok::<&T, OutOfBounds>(&self@[index as int]),
            index >= self@.len() ==> found == Err::<&T, OutOfBounds>(OutOfBounds(index)),
        decreases self,
    {
        let here = self.vec.len();
        if index < here {
            Ok(&self.vec[index])
        } else {
            match &self.next {
                Some(rest) => match rest.index(index - here) {
                    Ok(elem) => Ok(elem),
                    Err(_) => Err(OutOfBounds(index)),
                },
                None => Err(OutOfBounds(index)),
            }
        }
    }

    /// Mutable access to the element at position `index`, or `OutOfBounds`
    /// when there is none. Only that element can change through the result.
    pub fn index_mut(&mut self, index: usize) -> (found: Result<&mut T, OutOfBounds>)
        requires
            old(self).wf(),
        ensures
            final(self).wf(),
            final(self).spec_extension_size() == old(self).spec_extension_size(),
            match found {
                Ok(elem) => {
                    &&& index < old(self)@.len()
                    &&& *elem == old(self)@[index as int]
                    &&& final(self)@ == old(self)@.update(index as int, *final(elem))
                },
                Err(e) => {
                    &&& index >= old(self)@.len()
                    &&& e == OutOfBounds(index)
                    &&& final(self)@ == old(self)@
                },
            },
        decreases *old(self),
    {
        let here = self.vec.len();
        let ghost head = self.vec@;
        if index < here {
            let elem = &mut self.vec[index];
            proof {
                if self.next is Some {
                    let tail = self.next.unwrap().elements();
                    assert(head.update(index as int, *final(elem)) + tail =~= (head + tail).update(
                        index as int,
                        *final(elem),
                    ));
                }
            }
            Ok(elem)
        } else {
            match &mut self.next {
                Some(rest) => {
                    let ghost tail = rest.elements();
                    match rest.index_mut(index - here) {
                        Ok(elem) => {
                            proof {
                                assert(head + tail.update(index - here, *final(elem)) =~= (head
                                    + tail).update(index as int, *final(elem)));
                            }
                            Ok(elem)
                        },
                        Err(_) => Err(OutOfBounds(index)),
                    }
                },
                None => Err(OutOfBounds(index)),
            }
        }
    }

    /// Removes the element at position `index` and returns it. The last
    /// element takes its place, unless it was the last element itself.
    pub fn swap_remove(&mut self, index: usize) -> (removed: T)
        requires
            old(self).wf(),
            index < old(self)@.len(),
        ensures
            final(self).wf(),
            final(self).spec_extension_size() == old(self).spec_extension_size(),
            removed == old(self)@[index as int],
            index == old(self)@.len() - 1 ==> final(self)@ == old(self)@.drop_last(),
            index < old(self)@.len() - 1 ==> final(self)@ == old(self)@.drop_last().update(
                index as int,
                old(self)@.last(),
            ),
    {
        let len = self.len();
        let mut last = match self.pop() {
            Some(last) => last,
            None => vstd::pervasive::unreached(),
        };
        if index + 1 < len {
            match self.index_mut(index) {
                Ok(slot) => {
                    core::mem::swap(slot, &mut last);
                },
                Err(_) => {},
            }
        }
        last
    }

    /// Gathers all elements into the first segment, which is then the only
    /// one. Positions and elements stay as they are.
    pub fn compress(&mut self)
        requires
            old(self).wf(),
        ensures
            final(self).wf(),
            final(self).spec_extension_size() == old(self).spec_extension_size(),
            final(self)@ == old(self)@,
            final(self).segments() == 1,
    {
        let mut link = self.next.take();
        loop
            invariant
                self.next is None,
                self.extension_size == old(self).extension_size,
                self.extension_size > 0,
                match link {
                    Some(rest) => rest.wf() && self.vec@ + rest.elements() == old(self)@,
                    None => self.vec@ == old(self)@,
                },
                old(self)@.len() <= usize::MAX,
            ensures
                self.next is None,
                self.extension_size == old(self).extension_size,
                self.vec@ == old(self)@,
                self.extension_size > 0,
                old(self)@.len() <= usize::MAX,
            decreases link,
        {
            match link {
                Some(boxed) => {
                    let PinnedVec { vec: mut rest_vec, next: rest_next, extension_size: _ } = *boxed;
                    proof {
                        if rest_next is Some {
                            let tail = rest_next.unwrap().elements();
                            assert((self.vec@ + rest_vec@) + tail =~= self.vec@ + (rest_vec@
                                + tail));
                        }
                    }
                    self.vec.append(&mut rest_vec);
                    link = rest_next;
                },
                None => {
                    break ;
                },
            }
        }
    }

    /// Gathers all elements into one segment and gives back the memory that
    /// is reserved beyond them. Positions and elements stay as they are.
    pub fn shrink_to_fit(&mut self)
        requires
            old(self).wf(),
        ensures
            final(self).wf(),
            final(self).spec_extension_size() == old(self).spec_extension_size(),
            final(self)@ == old(self)@,
            final(self).segments() == 1,
    {
        self.compress();
        release_spare_capacity(&mut self.vec);
    }

    /// Walks the elements from the first to the last.
    pub fn iter<'a>(&'a self) -> (walk: PinnedVecIter<'a, T>)
        requires
            self.wf(),
        ensures
            walk.wf(),
            walk.remaining() == self@,
    {
        proof {
            assert(self.elements().skip(0) =~= self.elements());
        }
        PinnedVecIter { segment: Some(self), position: 0 }
    }
}

/// Calls `Vec::shrink_to_fit`, which only changes how much memory the vector
/// has reserved: its elements and their order stay as they are.
#[verifier::external_body]
fn release_spare_capacity<T>(vec: &mut Vec<T>)
    ensures
        final(vec)@ == old(vec)@,
{
    vec.shrink_to_fit();
}

/// A walk over the elements of a [`PinnedVec`], from the first to the last.
pub struct PinnedVecIter<'a, T> {
    segment: Option<&'a PinnedVec<T>>,
    position: usize,
}

impl<'a, T> PinnedVecIter<'a, T> {
    /// The position lies within the current segment.
    pub closed spec fn wf(&self) -> bool {
        match self.segment {
            Some(seg) => self.position <= seg.vec@.len(),
            None => true,
        }
    }

    /// The elements that the walk has still to yield, in order.
    pub closed spec fn remaining(&self) -> Seq<T> {
        match self.segment {
            Some(seg) => seg.elements().skip(self.position as int),
            None => Seq::empty(),
        }
    }

    /// Yields the next element, or `None` when the walk is over.
    pub fn next(&mut self) -> (item: Option<&'a T>)
        requires
            old(self).wf(),
        ensures
            final(self).wf(),
            old(self).remaining().len() == 0 ==> item is None && final(self).remaining().len()
                == 0,
            old(self).remaining().len() > 0 ==> item == Some(&old(self).remaining()[0]) && final(self).remaining() == old(self).remaining().skip(1),
    {
        loop
            invariant
                self.wf(),
                self.remaining() == old(self).remaining(),
            decreases self.segment,
        {
            match self.segment {
                None => {
                    return None;
                },
                Some(seg) => {
                    if self.position < seg.vec.len() {
                        let item = &seg.vec[self.position];
                        proof {
                            let all = seg.elements();
                            assert(all[self.position as int] == seg.vec@[self.position as int]);
                            assert(all.skip(self.position as int).skip(1) =~= all.skip(
                                self.position + 1,
                            ));
                        }
                        self.position = self.position + 1;
                        return Some(item);
                    } else {
                        proof {
                            if seg.next is Some {
                                let tail = seg.next.unwrap().elements();
                                assert((seg.vec@ + tail).skip(self.position as int) =~= tail.skip(
                                    0,
                                ));
                            }
                        }
                        self.segment = match &seg.next {
                            Some(rest) => Some(&**rest),
                            None => None,
                        };
                        self.position = 0;
                    }
                },
            }
        }
    }
}

} // verus!
