//! Bidirectional logical cursors over a container.
//!
//! [`Iter`] borrows the container and yields references through the index
//! mapper's read path. A mutable counterpart cannot hand out live references
//! into the rotated backing store, so [`IterMut`] yields the logical indices
//! instead, and the caller mutates through [`RotatedVec::get_mut`]; the
//! crossing-index termination check guarantees each index is yielded at most
//! once. [`IntoIter`] owns a normalized copy of the elements.

use vstd::prelude::*;

use crate::rvec::RotatedVec;

verus! {

/// An iterator over the items of a `RotatedVec`, created by
/// [`RotatedVec::iter`].
#[derive(Debug, Clone, Copy)]
pub struct Iter<'a, T> {
    pub container: &'a RotatedVec<T>,
    pub next_index: usize,
    pub next_rev_index: usize,
}

/// A cursor over the logical indices of a `RotatedVec`, created by
/// [`RotatedVec::iter_mut`]: it yields each index between the two ends once,
/// from either end.
#[derive(Debug, Clone, Copy)]
pub struct IterMut {
    pub next_index: usize,
    pub next_rev_index: usize,
}

/// An owning iterator over the items of a `RotatedVec`, created by
/// [`RotatedVec::into_iter`].
#[derive(Debug, Clone)]
pub struct IntoIter<T> {
    pub vec: Vec<T>,
    pub next_index: usize,
}

impl<'a, T> Iter<'a, T> {
    /// The cursor pair is ordered and within the container.
    pub open(crate) spec fn wf(&self) -> bool {
        &&& self.container.wf()
        &&& self.next_index <= self.next_rev_index
        &&& self.next_rev_index <= self.container@.len()
    }

    /// The elements not yet visited, in logical order.
    pub open(crate) spec fn remaining(&self) -> Seq<T> {
        self.container@.subrange(self.next_index as int, self.next_rev_index as int)
    }

    /// Yields the front element and advances the front cursor, or `None` once
    /// the cursors have crossed.
    pub fn next(&mut self) -> (r: Option<&'a T>)
        requires
            old(self).wf(),
        ensures
            final(self).wf(),
            final(self).container == old(self).container,
            old(self).next_index < old(self).next_rev_index ==> r == Some(
                &old(self).container@[old(self).next_index as int],
            ) && final(self).next_index == old(self).next_index + 1 && final(self).next_rev_index
                == old(self).next_rev_index,
            old(self).next_index >= old(self).next_rev_index ==> r is None && *final(self) == *old(
                self,
            ),
    {
        if self.next_index >= self.next_rev_index {
            None
        } else {
            let current = self.container.get(self.next_index);
            self.next_index = self.next_index + 1;
            current
        }
    }

    /// Yields the rear element and retreats the rear cursor, or `None` once
    /// the cursors have crossed.
    pub fn next_back(&mut self) -> (r: Option<&'a T>)
        requires
            old(self).wf(),
        ensures
            final(self).wf(),
            final(self).container == old(self).container,
            old(self).next_index < old(self).next_rev_index ==> r == Some(
                &old(self).container@[old(self).next_rev_index - 1],
            ) && final(self).next_rev_index == old(self).next_rev_index - 1 && final(self).next_index == old(self).next_index,
            old(self).next_index >= old(self).next_rev_index ==> r is None && *final(self) == *old(
                self,
            ),
    {
        if self.next_index >= self.next_rev_index {
            None
        } else {
            self.next_rev_index = self.next_rev_index - 1;
            self.container.get(self.next_rev_index)
        }
    }

    /// Skips `n` elements, then yields the next one as [`Iter::next`] would;
    /// skipping to or past the rear cursor exhausts the iterator.
    pub fn nth(&mut self, n: usize) -> (r: Option<&'a T>)
        requires
            old(self).wf(),
        ensures
            final(self).wf(),
            final(self).container == old(self).container,
            final(self).next_rev_index == old(self).next_rev_index,
            old(self).next_index + n < old(self).next_rev_index ==> r == Some(
                &old(self).container@[old(self).next_index + n],
            ) && final(self).next_index == old(self).next_index + n + 1,
            old(self).next_index + n >= old(self).next_rev_index ==> r is None && final(self).next_index == old(self).next_rev_index,
    {
        if n < self.next_rev_index - self.next_index {
            let i = self.next_index + n;
            self.next_index = i + 1;
            self.container.get(i)
        } else {
            self.next_index = self.next_rev_index;
            None
        }
    }

    /// Skips `n` elements from the rear, then yields the next one from the
    /// rear; skipping to or past the front cursor exhausts the iterator.
    pub fn nth_back(&mut self, n: usize) -> (r: Option<&'a T>)
        requires
            old(self).wf(),
        ensures
            final(self).wf(),
            final(self).container == old(self).container,
            final(self).next_index == old(self).next_index,
            old(self).next_index + n < old(self).next_rev_index ==> r == Some(
                &old(self).container@[old(self).next_rev_index - n - 1],
            ) && final(self).next_rev_index == old(self).next_rev_index - n - 1,
            old(self).next_index + n >= old(self).next_rev_index ==> r is None && final(self).next_rev_index == old(self).next_index,
    {
        if n < self.next_rev_index - self.next_index {
            self.next_rev_index = self.next_rev_index - n - 1;
            self.container.get(self.next_rev_index)
        } else {
            self.next_rev_index = self.next_index;
            None
        }
    }

    /// How many elements remain ahead of the front cursor, counted to the end
    /// of the container (the rear cursor is not consulted).
    pub fn count(self) -> (r: usize)
        requires
            self.wf(),
        ensures
            r == self.container@.len() - self.next_index,
    {
        self.container.len() - self.next_index
    }

    /// The container's last element, regardless of the cursors, or `None` for
    /// an empty container.
    pub fn last(self) -> (r: Option<&'a T>)
        requires
            self.wf(),
        ensures
            self.container@.len() > 0 ==> r == Some(&self.container@.last()),
            self.container@.len() == 0 ==> r is None,
    {
        let n = self.container.len();
        if n == 0 {
            None
        } else {
            self.container.get(n - 1)
        }
    }

    /// Lower and upper bounds on the count ahead of the front cursor; both
    /// equal [`Iter::count`].
    pub fn size_hint(&self) -> (r: (usize, Option<usize>))
        requires
            self.wf(),
        ensures
            r.0 == self.container@.len() - self.next_index,
            r.1 == Some(r.0),
    {
        let remaining_count = self.container.len() - self.next_index;
        (remaining_count, Some(remaining_count))
    }

    /// The container's total length (not the remaining count).
    pub fn len(&self) -> (r: usize)
        requires
            self.wf(),
        ensures
            r == self.container@.len(),
    {
        self.container.len()
    }
}

impl IterMut {
    /// The cursor pair is ordered.
    pub open(crate) spec fn wf(&self) -> bool {
        self.next_index <= self.next_rev_index
    }

    /// Yields the front index and advances, or `None` once the cursors have
    /// crossed.
    pub fn next(&mut self) -> (r: Option<usize>)
        requires
            old(self).wf(),
        ensures
            final(self).wf(),
            old(self).next_index < old(self).next_rev_index ==> r == Some(old(self).next_index)
                && final(self).next_index == old(self).next_index + 1 && final(self).next_rev_index
                == old(self).next_rev_index,
            old(self).next_index >= old(self).next_rev_index ==> r is None && *final(self) == *old(
                self,
            ),
    {
        if self.next_index >= self.next_rev_index {
            None
        } else {
            let i = self.next_index;
            self.next_index = i + 1;
            Some(i)
        }
    }

    /// Yields the rear index and retreats, or `None` once the cursors have
    /// crossed.
    pub fn next_back(&mut self) -> (r: Option<usize>)
        requires
            old(self).wf(),
        ensures
            final(self).wf(),
            old(self).next_index < old(self).next_rev_index ==> r == Some(
                (old(self).next_rev_index - 1) as usize,
            ) && final(self).next_rev_index == old(self).next_rev_index - 1 && final(self).next_index == old(self).next_index,
            old(self).next_index >= old(self).next_rev_index ==> r is None && *final(self) == *old(
                self,
            ),
    {
        if self.next_index >= self.next_rev_index {
            None
        } else {
            self.next_rev_index = self.next_rev_index - 1;
            Some(self.next_rev_index)
        }
    }
}

impl<T: Copy> IntoIter<T> {
    /// Yields the next element by value, or `None` when exhausted.
    pub fn next(&mut self) -> (r: Option<T>)
        requires
            old(self).next_index <= old(self).vec@.len(),
        ensures
            final(self).vec == old(self).vec,
            old(self).next_index < old(self).vec@.len() ==> r == Some(
                old(self).vec@[old(self).next_index as int],
            ) && final(self).next_index == old(self).next_index + 1,
            old(self).next_index >= old(self).vec@.len() ==> r is None && *final(self) == *old(
                self,
            ),
    {
        if self.next_index >= self.vec.len() {
            None
        } else {
            let current = self.vec[self.next_index];
            self.next_index = self.next_index + 1;
            Some(current)
        }
    }
}

impl<T> RotatedVec<T> {
    /// An iterator visiting the elements in logical order.
    pub fn iter(&self) -> (it: Iter<T>)
        requires
            self.wf(),
        ensures
            it.wf(),
            it.container == self,
            it.next_index == 0,
            it.next_rev_index == self@.len(),
            it.remaining() == self@,
    {
        let it = Iter { container: self, next_index: 0, next_rev_index: self.data.len() };
        proof {
            assert(it.remaining() =~= self@);
        }
        it
    }

    /// A cursor over the logical indices `0..len`, usable from both ends; the
    /// caller reads or mutates each yielded index through [`RotatedVec::get`]
    /// and [`RotatedVec::get_mut`]. No two yielded indices coincide, so no
    /// two such accesses alias.
    pub fn iter_mut(&self) -> (it: IterMut)
        ensures
            it.wf(),
            it.next_index == 0,
            it.next_rev_index == self@.len(),
    {
        IterMut { next_index: 0, next_rev_index: self.data.len() }
    }
}

impl<T: Copy> RotatedVec<T> {
    /// An owning iterator visiting the elements in logical order.
    pub fn into_iter(self) -> (it: IntoIter<T>)
        requires
            self.wf(),
        ensures
            it.vec@ == self@,
            it.next_index == 0,
    {
        IntoIter { vec: self.into_vec(), next_index: 0 }
    }
}

} // verus!
