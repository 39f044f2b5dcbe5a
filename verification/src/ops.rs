//! Whole-container operations: truncation, concatenation, sorting, and
//! conversion to and from a plain vector.

use vstd::prelude::*;
use vstd::laws_cmp::obeys_cmp;
use vstd::relations::sorted_by;
use vstd::std_specs::cmp::OrdSpec;

use crate::rvec::RotatedVec;
use crate::tri::{integer_sum_inverse, lemma_structure, lemma_sub_of_bounds, lemma_sub_of_le,
    lemma_sub_of_unique, lemma_tri_ge, lemma_tri_mono, num_subs, sub_len, sub_of, tri};

verus! {

/// The ascending order that sorting arranges: `a` precedes `b` unless `a`
/// compares greater.
pub open spec fn cmp_le<T: Ord>() -> spec_fn(T, T) -> bool {
    |a: T, b: T| a.cmp_spec(&b) != core::cmp::Ordering::Greater
}

impl<T: Copy> RotatedVec<T> {
    /// Shortens the container, keeping the first `len` elements and dropping
    /// the rest. Has no effect when `len` is not below the current length.
    ///
    /// This is an O(√n) operation: the subarray that becomes the new last one
    /// is restored to natural order, the index-table entries beyond the new
    /// length are dropped, and the backing store is truncated.
    pub fn truncate(&mut self, len: usize)
        requires
            old(self).wf(),
        ensures
            final(self).wf(),
            len >= old(self)@.len() ==> *final(self) == *old(self),
            len < old(self)@.len() ==> final(self)@ == old(self)@.take(len as int),
    {
        if len >= self.data.len() {
            return ;
        }
        if len == 0 {
            self.clear();
            proof {
                assert(final(self)@ =~= old(self)@.take(0));
            }
            return ;
        }
        let ghost orig = *old(self);
        let ghost n = orig.backing().len() as int;
        proof {
            lemma_structure(n);
            lemma_sub_of_bounds(len as int - 1);
            lemma_sub_of_bounds(n - 1);
            if sub_of(len as int - 1) > sub_of(n - 1) {
                lemma_tri_mono(sub_of(n - 1) + 1, sub_of(len as int - 1));
            }
        }
        let new_last = integer_sum_inverse(len - 1);
        self.unrotate_subarray(new_last);
        let ghost s1 = *self;
        self.start_indexes.truncate(new_last + 1);
        self.data.truncate(len);
        proof {
            self.lemma_truncate(s1, orig, len as int, new_last as int);
        }
    }

    /// Truncating after normalizing the new last subarray keeps exactly the
    /// logical prefix.
    proof fn lemma_truncate(&self, s1: Self, orig: Self, len: int, new_last: int)
        requires
            orig.wf(),
            s1.wf(),
            1 <= len < orig.backing().len(),
            new_last == sub_of(len - 1),
            s1@ == orig@,
            s1.backing().len() == orig.backing().len(),
            s1.table().len() == orig.table().len(),
            s1.table()[new_last] == 0,
            self.table() == s1.table().subrange(0, new_last + 1),
            self.backing() == s1.backing().subrange(0, len),
        ensures
            self.wf(),
            self@ == orig@.take(len),
    {
        let n = orig.backing().len() as int;
        lemma_structure(n);
        lemma_sub_of_bounds(len - 1);
        lemma_tri_ge(new_last);
        assert(new_last < s1.table().len()) by {
            lemma_sub_of_bounds(n - 1);
            if new_last > sub_of(n - 1) {
                lemma_tri_mono(sub_of(n - 1) + 1, new_last);
            }
        }
        assert(self.wf()) by {
            assert(self.table().len() == num_subs(len));
        }
        assert forall|i: int| 0 <= i < len implies self@[i] == orig@[i] by {
            self.lemma_phys(i);
            s1.lemma_phys(i);
            let m = sub_of(i);
            if m < new_last {
                lemma_tri_mono(m + 1, new_last);
                assert(sub_len(m, len) == sub_len(m, n));
                assert(self.phys(i) == s1.phys(i));
                assert(self.backing()[s1.phys(i)] == s1.backing()[s1.phys(i)]);
            } else {
                lemma_sub_of_unique(i, new_last);
                self.lemma_sub_elem(new_last, i - tri(new_last));
                s1.lemma_sub_elem(new_last, i - tri(new_last));
                assert(self.phys(i) == i);
                assert(s1.phys(i) == i);
            }
        }
        assert(self@ =~= orig@.take(len));
    }

    /// Moves all the elements of `other` onto the back of `self`, leaving
    /// `other` empty.
    ///
    /// Both containers are first normalized where needed, so the moved
    /// elements arrive in logical order; the index table grows with fresh
    /// zero entries. Cost: O(√n) plus the size of `other`.
    pub fn append(&mut self, other: &mut Self)
        requires
            old(self).wf(),
            old(other).wf(),
            old(self)@.len() + old(other)@.len() <= usize::MAX,
        ensures
            final(self).wf(),
            final(self)@ == old(self)@ + old(other)@,
            final(other).wf(),
            final(other)@ == Seq::<T>::empty(),
    {
        // restore the source to natural order so its backing store reads out
        // its logical sequence
        other.normalize();
        // if our own last subarray is rotated, normalize it so appending
        // continues it in natural order
        let c = self.start_indexes.len();
        if c > 0 && self.start_indexes[c - 1] != 0 {
            self.unrotate_subarray(c - 1);
        }
        let ghost s1 = *self;
        let ghost tail = old(other)@;
        self.data.append(&mut other.data);
        self.grow_table(Ghost(s1), Ghost(tail));
        other.clear();
    }

    /// Appends copies of the elements of `values`, in order.
    ///
    /// Cost: O(√n) plus the size of `values`.
    pub fn extend(&mut self, values: &Vec<T>)
        requires
            old(self).wf(),
            old(self)@.len() + values@.len() <= usize::MAX,
        ensures
            final(self).wf(),
            final(self)@ == old(self)@ + values@,
    {
        let c = self.start_indexes.len();
        if c > 0 && self.start_indexes[c - 1] != 0 {
            self.unrotate_subarray(c - 1);
        }
        let ghost s1 = *self;
        let m = values.len();
        let mut j: usize = 0;
        while j < m
            invariant
                0 <= j <= m,
                m == values@.len(),
                s1.backing().len() + m <= usize::MAX,
                self.backing() == s1.backing() + values@.subrange(0, j as int),
                self.table() == s1.table(),
            decreases m - j,
        {
            self.data.push(values[j]);
            proof {
                assert(self.backing() =~= s1.backing() + values@.subrange(0, j as int + 1));
            }
            j = j + 1;
        }
        proof {
            assert(values@.subrange(0, m as int) =~= values@);
        }
        self.grow_table(Ghost(s1), Ghost(values@));
    }

    /// After concatenating `tail` onto a container whose last subarray is in
    /// natural order, extend the index table with zero entries to cover the
    /// new length.
    fn grow_table(&mut self, Ghost(s1): Ghost<Self>, Ghost(tail): Ghost<Seq<T>>)
        requires
            s1.wf(),
            s1.table().len() > 0 ==> s1.table()[s1.table().len() - 1] == 0,
            s1.backing().len() + tail.len() <= usize::MAX,
            old(self).backing() == s1.backing() + tail,
            old(self).table() == s1.table(),
        ensures
            final(self).wf(),
            final(self)@ == s1@ + tail,
    {
        let ghost n1 = s1.backing().len() as int;
        let ghost big = n1 + tail.len();
        proof {
            vstd::std_specs::vec::axiom_spec_len(&self.data);
            if n1 >= 1 {
                lemma_structure(n1);
            }
            if big >= 1 {
                lemma_structure(big);
            }
        }
        let new_len = self.data.len();
        if new_len > 0 {
            proof {
                lemma_sub_of_bounds(big - 1);
                if n1 >= 1 {
                    lemma_sub_of_bounds(n1 - 1);
                    if sub_of(n1 - 1) > sub_of(big - 1) {
                        lemma_tri_mono(sub_of(big - 1) + 1, sub_of(n1 - 1));
                    }
                }
            }
            let new_last = integer_sum_inverse(new_len - 1);
            while self.start_indexes.len() < new_last + 1
                invariant
                    s1.table().len() <= self.start_indexes@.len() <= new_last + 1,
                    new_last < usize::MAX,
                    self.table().subrange(0, s1.table().len() as int) == s1.table(),
                    forall|m: int|
                        s1.table().len() <= m < self.table().len() ==> self.table()[m] == 0,
                    self.backing() == s1.backing() + tail,
                decreases new_last + 1 - self.start_indexes@.len(),
            {
                self.start_indexes.push(0);
                proof {
                    assert(self.table().subrange(0, s1.table().len() as int) =~= s1.table());
                }
            }
            proof {
                self.lemma_concat(s1, tail);
            }
        } else {
            proof {
                assert(tail.len() == 0 && n1 == 0);
                assert(final(self)@ =~= s1@ + tail);
            }
        }
    }

    /// Concatenating onto a natural-order last subarray and zero-filling the
    /// index table yields exactly the concatenated logical sequence.
    proof fn lemma_concat(&self, s1: Self, tail: Seq<T>)
        requires
            s1.wf(),
            s1.table().len() > 0 ==> s1.table()[s1.table().len() - 1] == 0,
            s1.backing().len() + tail.len() <= usize::MAX,
            s1.backing().len() + tail.len() >= 1,
            self.backing() == s1.backing() + tail,
            self.table().len() == sub_of(s1.backing().len() + tail.len() - 1) + 1,
            self.table().subrange(0, s1.table().len() as int) == s1.table(),
            forall|m: int| s1.table().len() <= m < self.table().len() ==> self.table()[m] == 0,
        ensures
            self.wf(),
            self@ == s1@ + tail,
    {
        let n1 = s1.backing().len() as int;
        let big = n1 + tail.len();
        let count1 = s1.table().len() as int;
        lemma_structure(big);
        if n1 >= 1 {
            lemma_structure(n1);
        }
        assert(count1 <= self.table().len()) by {
            if n1 >= 1 {
                lemma_sub_of_bounds(n1 - 1);
                lemma_sub_of_bounds(big - 1);
                if sub_of(n1 - 1) > sub_of(big - 1) {
                    lemma_tri_mono(sub_of(big - 1) + 1, sub_of(n1 - 1));
                }
            }
        }
        assert(self.wf()) by {
            assert(self.table().len() == num_subs(big));
            assert forall|m: int|
                0 <= m < self.table().len() implies (self.table()[m] as int) <= m by {
                if m < count1 {
                    assert(self.table()[m] == s1.table()[m]);
                }
            }
            if (big as int) < tri(self.table().len() as int) {
                let last = self.table().len() - 1;
                if last < count1 {
                    assert(self.table()[last] == s1.table()[last]);
                    if last < count1 - 1 {
                        lemma_structure(n1);
                        lemma_sub_of_bounds(n1 - 1);
                        lemma_tri_mono(last + 1, count1 - 1);
                        assert(false);
                    }
                }
            }
        }
        assert forall|i: int| 0 <= i < big implies self@[i] == (s1@ + tail)[i] by {
            self.lemma_phys(i);
            let m = sub_of(i);
            if i < n1 {
                s1.lemma_phys(i);
                assert(m < count1);
                assert(s1.table()[m] == self.table().subrange(0, count1)[m]);
                assert(self.table()[m] == s1.table()[m]);
                if m < count1 - 1 {
                    assert(sub_len(m, n1) == m + 1 && sub_len(m, big) == m + 1) by {
                        lemma_structure(n1);
                        lemma_tri_mono(m + 1, count1 - 1);
                        lemma_sub_of_bounds(n1 - 1);
                    }
                    assert(self.phys(i) == s1.phys(i));
                    assert(self.backing()[s1.phys(i)] == s1.backing()[s1.phys(i)]);
                } else {
                    // the old last subarray continues in natural order
                    assert(s1.table()[m] == 0);
                    s1.lemma_sub_elem(m, i - tri(m));
                    assert(s1.phys(i) == i);
                    assert(self.phys(i) == i) by {
                        assert(self.table()[m] == 0);
                    }
                    assert(self.backing()[i] == s1.backing()[i]);
                }
            } else {
                // the new tail lies in natural order after position n1
                assert(self.table()[m] == 0) by {
                    if m < count1 - 1 {
                        lemma_structure(n1);
                        lemma_sub_of_bounds(n1 - 1);
                        lemma_tri_mono(m + 1, count1 - 1);
                        assert(tri(m + 1) <= n1);
                        lemma_sub_of_bounds(i);
                        assert(false);
                    }
                    if m == count1 - 1 {
                        assert(s1.table()[m] == 0);
                        assert(self.table()[m] == s1.table()[m]);
                    }
                }
                assert(self.phys(i) == i);
                assert(self.backing()[i] == tail[i - n1]);
            }
        }
        assert(self@ =~= s1@ + tail);
    }

    /// Converts the container into a plain vector holding its elements in
    /// logical order: every subarray is restored to natural order, then the
    /// backing store is handed over.
    pub fn into_vec(self) -> (r: Vec<T>)
        requires
            self.wf(),
        ensures
            r@ == self@,
    {
        let mut this = self;
        this.normalize();
        this.data
    }

    /// Builds a container holding the elements of `data` in the same order,
    /// with every subarray in natural order.
    pub fn from_vec(data: Vec<T>) -> (r: Self)
        ensures
            r.wf(),
            r@ == data@,
    {
        let mut this = RotatedVec { data, start_indexes: Vec::new() };
        this.init();
        this
    }

    /// Builds a container holding copies of the elements of `slice` in the
    /// same order, with every subarray in natural order.
    pub fn from_slice(slice: &[T]) -> (r: Self)
        ensures
            r.wf(),
            r@ == slice@,
    {
        Self::from_vec(vstd::slice::slice_to_vec(slice))
    }

    /// Given the backing store, fills the index table with zero entries.
    pub(crate) fn init(&mut self)
        ensures
            final(self).wf(),
            final(self).backing() == old(self).backing(),
            final(self)@ == old(self).backing(),
    {
        let ghost orig = *old(self);
        if self.data.is_empty() {
            self.start_indexes = Vec::new();
            proof {
                assert(final(self)@ =~= old(self).backing());
            }
        } else {
            proof {
                vstd::std_specs::vec::axiom_spec_len(&self.data);
                lemma_sub_of_le(self.backing().len() as int - 1);
            }
            let last = integer_sum_inverse(self.data.len() - 1);
            let mut table: Vec<usize> = Vec::new();
            let mut j: usize = 0;
            while j < last + 1
                invariant
                    0 <= j <= last + 1,
                    last < usize::MAX,
                    table@.len() == j,
                    forall|m: int| 0 <= m < j ==> table@[m] == 0,
                decreases last + 1 - j,
            {
                table.push(0);
                j = j + 1;
            }
            self.start_indexes = table;
            proof {
                assert(self.wf());
                self.lemma_unrotated_view();
            }
        }
    }

    /// Sorts the container in place.
    ///
    /// Rotation state is first normalized, then the backing store is sorted
    /// with the standard library's stable sort; afterwards every index-table
    /// entry is 0 and iteration yields the elements in ascending order.
    pub fn sort(&mut self) where T: Ord
        requires
            old(self).wf(),
            obeys_cmp::<T>(),
        ensures
            final(self).wf(),
            final(self)@.len() == old(self)@.len(),
            final(self)@.to_multiset() == old(self)@.to_multiset(),
            sorted_by(final(self)@, cmp_le::<T>()),
            forall|k: int| 0 <= k < final(self).table().len() ==> final(self).table()[k] == 0,
    {
        self.normalize();
        sort_backing(&mut self.data);
        proof {
            self.lemma_unrotated_view();
        }
    }

    /// Sorts the container in place with the standard library's unstable
    /// sort, which may reorder equal elements.
    ///
    /// Rotation state is first normalized; afterwards every index-table entry
    /// is 0 and iteration yields the elements in ascending order.
    pub fn sort_unstable(&mut self) where T: Ord
        requires
            old(self).wf(),
            obeys_cmp::<T>(),
        ensures
            final(self).wf(),
            final(self)@.len() == old(self)@.len(),
            final(self)@.to_multiset() == old(self)@.to_multiset(),
            sorted_by(final(self)@, cmp_le::<T>()),
            forall|k: int| 0 <= k < final(self).table().len() ==> final(self).table()[k] == 0,
    {
        self.normalize();
        sort_backing_unstable(&mut self.data);
        proof {
            self.lemma_unrotated_view();
        }
    }
}

impl<T> Default for RotatedVec<T> {
    /// An empty container.
    fn default() -> (r: Self)
        ensures
            r.wf(),
            r@ == Seq::<T>::empty(),
    {
        RotatedVec::new()
    }
}

/// Relies on `Vec::sort` (the standard library's stable sort): the vector is
/// reordered in place — same length, same multiset of elements — and, when
/// `T`'s `Ord` is a lawful total order, ends sorted in ascending order.
#[verifier::external_body]
fn sort_backing<T: Ord>(v: &mut Vec<T>)
    ensures
        final(v)@.len() == old(v)@.len(),
        final(v)@.to_multiset() == old(v)@.to_multiset(),
        obeys_cmp::<T>() ==> sorted_by(final(v)@, cmp_le::<T>()),
{
    v.sort()
}

/// Relies on `Vec::sort_unstable` (the standard library's in-place unstable
/// sort): the vector is reordered in place — same length, same multiset of
/// elements — and, when `T`'s `Ord` is a lawful total order, ends sorted in
/// ascending order.
#[verifier::external_body]
fn sort_backing_unstable<T: Ord>(v: &mut Vec<T>)
    ensures
        final(v)@.len() == old(v)@.len(),
        final(v)@.to_multiset() == old(v)@.to_multiset(),
        obeys_cmp::<T>() ==> sorted_by(final(v)@, cmp_le::<T>()),
{
    v.sort_unstable()
}

} // verus!
