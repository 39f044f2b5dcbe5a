//! The container type, its mathematical model, and the constant-time
//! operations.
//!
//! A `RotatedVec<T>` keeps its elements in one flat backing store, partitioned
//! into subarrays of capacities 1, 2, 3, … (see [`crate::tri`]). Each subarray
//! may be cyclically rotated; the index table records, for each subarray, the
//! physical offset of its logically first element (the "pivot offset"). The
//! logical sequence of the container — its view — reads each position through
//! that rotation.

use vstd::prelude::*;
use vstd::std_specs::cmp::PartialEqSpec;

use crate::tri::{integer_sum, integer_sum_inverse, lemma_structure, lemma_sub_of_bounds,
    lemma_sub_of_le, lemma_sub_of_member, lemma_sub_of_unique, lemma_tri_mono, num_subs, sub_len,
    sub_of, tri};

verus! {

broadcast use vstd::std_specs::vec::group_vec_axioms;

/// Where a cyclic rotation by pivot offset `p` sends logical offset `j`
/// within a subarray of `l` elements: `(p + j) % l`, written without division
/// since `0 <= p < l` and `0 <= j < l`.
pub open spec fn rot(p: int, j: int, l: int) -> int {
    if p + j < l {
        p + j
    } else {
        p + j - l
    }
}

/// A dynamic array based on a two-level rotated array: random access in O(1),
/// insertion and removal at arbitrary logical positions in amortized O(√n).
#[derive(Debug, Clone)]
pub struct RotatedVec<T> {
    pub(crate) data: Vec<T>,
    pub(crate) start_indexes: Vec<usize>,
}

impl<T> View for RotatedVec<T> {
    type V = Seq<T>;

    /// The logical sequence the container represents: each position read
    /// through its subarray's rotation.
    open(crate) spec fn view(&self) -> Seq<T> {
        Seq::new(self.data@.len(), |i: int| self.data@[self.phys(i)])
    }
}

impl<T> RotatedVec<T> {
    /// The backing store in physical order.
    pub open(crate) spec fn backing(&self) -> Seq<T> {
        self.data@
    }

    /// The index table: one pivot offset per subarray in use.
    pub open(crate) spec fn table(&self) -> Seq<usize> {
        self.start_indexes@
    }

    /// The structural invariant: the index table covers exactly the subarrays
    /// in use, every pivot offset lies within its subarray, and a partially
    /// filled last subarray is never rotated.
    pub open(crate) spec fn wf(&self) -> bool {
        &&& self.table().len() == num_subs(self.backing().len() as int)
        &&& (forall|k: int| 0 <= k < self.table().len() ==> (self.table()[k] as int) <= k)
        &&& ((self.table().len() > 0 && (self.backing().len() as int) < tri(
            self.table().len() as int,
        )) ==> self.table()[self.table().len() - 1] == 0)
    }

    /// The backing-store position holding logical position `i`:
    /// `tri(k) + (pivot_offset[k] + (i - tri(k))) % sub_len(k)` for the
    /// subarray `k` containing `i`.
    pub open(crate) spec fn phys(&self, i: int) -> int {
        let k = sub_of(i);
        let l = sub_len(k, self.backing().len() as int);
        tri(k) + rot(self.table()[k] as int, i - tri(k), l)
    }

    /// True when no subarray is rotated, so physical order equals logical
    /// order.
    pub open(crate) spec fn unrotated(&self) -> bool {
        forall|k: int| 0 <= k < self.table().len() ==> self.table()[k] == 0
    }

    /// True when the last subarray in use is filled to capacity (vacuously
    /// true for an empty container).
    pub open(crate) spec fn last_full(&self) -> bool {
        self.backing().len() as int == tri(self.table().len() as int)
    }

    /// For a well-formed container, the physical index of a logical position
    /// stays within that position's subarray.
    pub(crate) proof fn lemma_phys(&self, i: int)
        requires
            self.wf(),
            0 <= i < self.backing().len(),
        ensures
            ({
                let n = self.backing().len() as int;
                let k = sub_of(i);
                &&& 0 <= k < self.table().len()
                &&& tri(k) <= i < tri(k) + sub_len(k, n)
                &&& 1 <= sub_len(k, n) <= k + 1
                &&& 0 <= (self.table()[k] as int) < sub_len(k, n)
                &&& tri(k) <= self.phys(i) < tri(k) + sub_len(k, n)
                &&& self.phys(i) < n
                &&& sub_of(self.phys(i)) == k
                &&& self@[i] == self.backing()[self.phys(i)]
                &&& self@.len() == n
            }),
    {
        let n = self.backing().len() as int;
        let c = self.table().len() as int;
        let k = sub_of(i);
        lemma_sub_of_bounds(i);
        lemma_sub_of_bounds(n - 1);
        lemma_structure(n);
        if k > sub_of(n - 1) {
            lemma_tri_mono(sub_of(n - 1) + 1, k);
        }
        assert(k < c);
        let l = sub_len(k, n);
        if k < c - 1 {
            assert(sub_len(k, n) == k + 1);
        }
        if tri(k + 1) <= n {
            assert(l == k + 1);
        } else {
            assert(k == c - 1);
            lemma_tri_mono(k + 1, c);
            assert(n < tri(c));
            assert(self.table()[k] == 0);
        }
        let p = self.table()[k] as int;
        assert(0 <= p < l);
        crate::tri::lemma_tri_ge(k);
        assert(tri(k) <= self.phys(i) < tri(k) + l);
        lemma_sub_of_unique(self.phys(i), k);
    }

    /// Distinct logical positions occupy distinct physical positions.
    pub(crate) proof fn lemma_phys_inj(&self, i1: int, i2: int)
        requires
            self.wf(),
            0 <= i1 < self.backing().len(),
            0 <= i2 < self.backing().len(),
            self.phys(i1) == self.phys(i2),
        ensures
            i1 == i2,
    {
        self.lemma_phys(i1);
        self.lemma_phys(i2);
        let k1 = sub_of(i1);
        let k2 = sub_of(i2);
        if k1 != k2 {
            lemma_sub_of_unique(self.phys(i1), k1);
            lemma_sub_of_unique(self.phys(i2), k2);
        }
    }

    /// Every backing-store position in use is read by some logical position.
    pub(crate) proof fn lemma_phys_onto(&self, x: int)
        requires
            self.wf(),
            0 <= x < self.backing().len(),
        ensures
            exists|i: int| 0 <= i < self.backing().len() && self.phys(i) == x,
    {
        let n = self.backing().len() as int;
        self.lemma_phys(x);
        let k = sub_of(x);
        let l = sub_len(k, n);
        let p = self.table()[k] as int;
        let j = x - tri(k);
        let q = if j >= p {
            j - p
        } else {
            j + l - p
        };
        let i = tri(k) + q;
        crate::tri::lemma_tri_ge(k);
        lemma_sub_of_unique(i, k);
        assert(self.phys(i) == x);
    }

    /// The logical element `j` of subarray `k`, read through the rotation.
    pub(crate) proof fn lemma_sub_elem(&self, k: int, j: int)
        requires
            self.wf(),
            0 <= k < self.table().len(),
            0 <= j < sub_len(k, self.backing().len() as int),
        ensures
            sub_of(tri(k) + j) == k,
            0 <= tri(k) + j < self.backing().len(),
            self.phys(tri(k) + j) == tri(k) + rot(
                self.table()[k] as int,
                j,
                sub_len(k, self.backing().len() as int),
            ),
            self@[tri(k) + j] == self.backing()[self.phys(tri(k) + j)],
    {
        let n = self.backing().len() as int;
        assert(n >= 1);
        lemma_sub_of_member(n, k, j);
        self.lemma_phys(tri(k) + j);
    }

    /// In an unrotated container, logical and physical order coincide.
    pub(crate) proof fn lemma_unrotated_view(&self)
        requires
            self.wf(),
            self.unrotated(),
        ensures
            forall|i: int| 0 <= i < self.backing().len() ==> #[trigger] self.phys(i) == i,
            self@ =~= self.backing(),
    {
        assert forall|i: int| 0 <= i < self.backing().len() implies #[trigger] self.phys(i)
            == i by {
            self.lemma_phys(i);
        }
    }

    /// Makes a new, empty `RotatedVec` without allocating.
    pub fn new() -> (r: Self)
        ensures
            r.wf(),
            r@ == Seq::<T>::empty(),
    {
        let r = RotatedVec { data: Vec::new(), start_indexes: Vec::new() };
        proof {
            assert(r@ =~= Seq::<T>::empty());
        }
        r
    }

    /// Makes a new, empty `RotatedVec` with space for `capacity` elements in
    /// the backing store and for the index-table entries they would need.
    pub fn with_capacity(capacity: usize) -> (r: Self)
        ensures
            r.wf(),
            r@ == Seq::<T>::empty(),
    {
        let start_indexes_capacity: usize = if capacity > 0 {
            proof {
                lemma_sub_of_le(capacity - 1);
            }
            integer_sum_inverse(capacity - 1) + 1
        } else {
            0
        };
        let r = RotatedVec {
            data: Vec::with_capacity(capacity),
            start_indexes: Vec::with_capacity(start_indexes_capacity),
        };
        proof {
            assert(r@ =~= Seq::<T>::empty());
        }
        r
    }

    /// Returns the number of elements in the container.
    pub fn len(&self) -> (n: usize)
        ensures
            n == self@.len(),
    {
        self.data.len()
    }

    /// Returns `true` if the container holds no elements.
    pub fn is_empty(&self) -> (r: bool)
        ensures
            r == (self@.len() == 0),
    {
        self.data.is_empty()
    }

    /// Removes all elements (and all index-table entries).
    pub fn clear(&mut self)
        ensures
            final(self).wf(),
            final(self)@ == Seq::<T>::empty(),
            final(self).table() == Seq::<usize>::empty(),
    {
        self.data.clear();
        self.start_indexes.clear();
        proof {
            assert(self@ =~= Seq::<T>::empty());
            assert(self.table() =~= Seq::<usize>::empty());
        }
    }

    /// The backing-store index of logical position `index`.
    pub(crate) fn get_real_index(&self, index: usize) -> (r: usize)
        requires
            self.wf(),
            index < self@.len(),
        ensures
            r == self.phys(index as int),
            r < self@.len(),
    {
        proof {
            self.lemma_phys(index as int);
        }
        let subarray_idx = integer_sum_inverse(index);
        let subarray_start_idx = integer_sum(subarray_idx);
        let subarray_len: usize = if subarray_idx == self.start_indexes.len() - 1 {
            self.data.len() - subarray_start_idx
        } else {
            subarray_idx + 1
        };
        proof {
            lemma_structure(self.backing().len() as int);
            assert(subarray_len == sub_len(subarray_idx as int, self.backing().len() as int));
        }
        let idx_offset = index - subarray_start_idx;
        let pivot_offset = self.start_indexes[subarray_idx];
        let rotated_offset: usize = if idx_offset < subarray_len - pivot_offset {
            pivot_offset + idx_offset
        } else {
            idx_offset - (subarray_len - pivot_offset)
        };
        proof {
            vstd::std_specs::vec::axiom_spec_len(&self.data);
            assert(rotated_offset as int == rot(
                pivot_offset as int,
                idx_offset as int,
                subarray_len as int,
            ));
            assert(subarray_start_idx + rotated_offset == self.phys(index as int));
        }
        subarray_start_idx + rotated_offset
    }

    /// Returns a reference to the value at logical position `index`, if any.
    ///
    /// This is a constant-time operation; an out-of-range index is an absent
    /// result, not a failure.
    pub fn get(&self, index: usize) -> (r: Option<&T>)
        requires
            self.wf(),
        ensures
            index < self@.len() ==> r == Some(&self@[index as int]),
            index >= self@.len() ==> r is None,
    {
        if index >= self.data.len() {
            return None;
        }
        let real_idx = self.get_real_index(index);
        proof {
            self.lemma_phys(index as int);
        }
        Some(&self.data[real_idx])
    }

    /// Returns `true` if the container holds an element equal to `x`.
    ///
    /// This is an O(n) linear scan.
    pub fn contains(&self, x: &T) -> (r: bool) where T: PartialEq
        requires
            self.wf(),
            T::obeys_eq_spec(),
        ensures
            r == (exists|i: int| 0 <= i < self@.len() && self@[i].eq_spec(x)),
    {
        let n = self.data.len();
        let mut j: usize = 0;
        while j < n
            invariant
                self.wf(),
                T::obeys_eq_spec(),
                n == self.backing().len(),
                0 <= j <= n,
                forall|y: int| 0 <= y < j ==> !self.backing()[y].eq_spec(x),
            decreases n - j,
        {
            if self.data[j].eq(x) {
                proof {
                    self.lemma_phys_onto(j as int);
                    let i = choose|i: int|
                        0 <= i < self.backing().len() && self.phys(i) == j as int;
                    self.lemma_phys(i);
                    assert(self@[i].eq_spec(x));
                }
                return true;
            }
            j = j + 1;
        }
        proof {
            assert forall|i: int| 0 <= i < self@.len() implies !self@[i].eq_spec(x) by {
                self.lemma_phys(i);
            }
        }
        false
    }

    /// Reports whether the two containers hold equal elements at every
    /// logical position. This is the container's element-wise equality,
    /// offered as a named method so that it can carry a contract.
    pub fn eq_elems(&self, other: &Self) -> (r: bool) where T: PartialEq
        requires
            self.wf(),
            other.wf(),
            T::obeys_eq_spec(),
        ensures
            r == (self@.len() == other@.len() && (forall|i: int|
                0 <= i < self@.len() ==> #[trigger] self@[i].eq_spec(&other@[i]))),
    {
        let n = self.data.len();
        if n != other.data.len() {
            return false;
        }
        let mut i: usize = 0;
        while i < n
            invariant
                self.wf(),
                other.wf(),
                T::obeys_eq_spec(),
                n == self@.len(),
                n == other@.len(),
                0 <= i <= n,
                forall|y: int| 0 <= y < i ==> #[trigger] self@[y].eq_spec(&other@[y]),
            decreases n - i,
        {
            let a = self.get_real_index(i);
            let b = other.get_real_index(i);
            proof {
                self.lemma_phys(i as int);
                other.lemma_phys(i as int);
            }
            if !self.data[a].eq(&other.data[b]) {
                return false;
            }
            i = i + 1;
        }
        true
    }

    /// Reports whether the last subarray in use is filled to capacity.
    pub(crate) fn is_last_subarray_full(&self) -> (r: bool)
        requires
            self.wf(),
        ensures
            r == self.last_full(),
    {
        let c = self.start_indexes.len();
        if c == 0 {
            return self.data.len() == 0;
        }
        proof {
            vstd::std_specs::vec::axiom_spec_len(&self.data);
            lemma_structure(self.backing().len() as int);
        }
        let start = integer_sum(c - 1);
        self.data.len() - start == c
    }

    /// Returns how many elements the container can hold without reallocating.
    pub fn capacity(&self) -> (c: usize)
        ensures
            self@.len() <= c,
    {
        vec_capacity(&self.data)
    }

    /// Reserves capacity for at least `additional` more elements.
    pub fn reserve(&mut self, additional: usize)
        ensures
            final(self).backing() == old(self).backing(),
            final(self).table() == old(self).table(),
            final(self)@ == old(self)@,
            final(self).wf() == old(self).wf(),
    {
        self.data.reserve(additional);
        proof {
            assert(final(self)@ =~= old(self)@);
        }
    }

    /// Reserves the minimum capacity for exactly `additional` more elements.
    pub fn reserve_exact(&mut self, additional: usize)
        ensures
            final(self).backing() == old(self).backing(),
            final(self).table() == old(self).table(),
            final(self)@ == old(self)@,
            final(self).wf() == old(self).wf(),
    {
        vec_reserve_exact(&mut self.data, additional);
        proof {
            assert(final(self)@ =~= old(self)@);
        }
    }

    /// Shrinks the capacity of the container as much as possible.
    pub fn shrink_to_fit(&mut self)
        ensures
            final(self).backing() == old(self).backing(),
            final(self).table() == old(self).table(),
            final(self)@ == old(self)@,
            final(self).wf() == old(self).wf(),
    {
        vec_shrink_to_fit(&mut self.data);
        proof {
            assert(final(self)@ =~= old(self)@);
        }
    }
}

impl<T: Copy> RotatedVec<T> {
    /// Writes `value` at logical position `index` and returns the value
    /// previously there, or `None` (leaving the container unchanged) if
    /// `index` is out of range.
    ///
    /// This is the mutable counterpart of [`RotatedVec::get`]: a live mutable
    /// reference into the rotated backing store cannot be handed out, so the
    /// replacement value is passed in instead.
    pub fn get_mut(&mut self, index: usize, value: T) -> (r: Option<T>)
        requires
            old(self).wf(),
        ensures
            final(self).wf(),
            index < old(self)@.len() ==> r == Some(old(self)@[index as int]) && final(self)@
                == old(self)@.update(index as int, value) && final(self).table() == old(
                self,
            ).table(),
            index >= old(self)@.len() ==> r is None && *final(self) == *old(self),
    {
        if index >= self.data.len() {
            return None;
        }
        let real_idx = self.get_real_index(index);
        let prev = self.data[real_idx];
        self.data[real_idx] = value;
        proof {
            old(self).lemma_phys(index as int);
            assert forall|i: int| 0 <= i < self@.len() implies self@[i] == old(self)@.update(
                index as int,
                value,
            )[i] by {
                old(self).lemma_phys(i);
                assert(self.phys(i) == old(self).phys(i));
                if i != index && old(self).phys(i) == old(self).phys(index as int) {
                    old(self).lemma_phys_inj(i, index as int);
                    assert(false);
                }
            }
            assert(self@ =~= old(self)@.update(index as int, value));
        }
        Some(prev)
    }

    /// Swaps the elements in *physical* backing-store slots `a` and `b`.
    ///
    /// Unlike every other indexed operation, this works on physical rather
    /// than logical positions: its effect on logical order depends on the
    /// current rotation state, and logical position `i` coincides with
    /// physical slot `i` only while the container is unrotated (as it is
    /// right after construction from a plain vector).
    pub fn swap(&mut self, a: usize, b: usize)
        requires
            old(self).wf(),
            a < old(self)@.len(),
            b < old(self)@.len(),
        ensures
            final(self).wf(),
            final(self)@.len() == old(self)@.len(),
            final(self).table() == old(self).table(),
            final(self).backing() == old(self).backing().update(
                a as int,
                old(self).backing()[b as int],
            ).update(b as int, old(self).backing()[a as int]),
            old(self).unrotated() ==> final(self)@ == old(self)@.update(
                a as int,
                old(self)@[b as int],
            ).update(b as int, old(self)@[a as int]),
    {
        let va = self.data[a];
        let vb = self.data[b];
        self.data[a] = vb;
        self.data[b] = va;
        proof {
            assert(final(self).backing() =~= old(self).backing().update(
                a as int,
                old(self).backing()[b as int],
            ).update(b as int, old(self).backing()[a as int]));
            if old(self).unrotated() {
                old(self).lemma_unrotated_view();
                self.lemma_unrotated_view();
                assert(self@ =~= old(self)@.update(a as int, old(self)@[b as int]).update(
                    b as int,
                    old(self)@[a as int],
                ));
            }
        }
    }

    /// Restores subarray `k` to natural order: its elements are rewritten in
    /// logical order and its pivot offset becomes 0. The container's logical
    /// contents do not change.
    pub(crate) fn unrotate_subarray(&mut self, k: usize)
        requires
            old(self).wf(),
            k < old(self).table().len(),
        ensures
            final(self).wf(),
            final(self)@ == old(self)@,
            final(self).backing().len() == old(self).backing().len(),
            final(self).table() == old(self).table().update(k as int, 0usize),
    {
        proof {
            vstd::std_specs::vec::axiom_spec_len(&self.data);
            assert(self.backing().len() as int >= 1);
            lemma_structure(self.backing().len() as int);
            crate::tri::lemma_tri_ge(k as int);
            lemma_tri_mono(k as int, self.table().len() as int - 1);
            assert(tri(k as int) < self.backing().len() as int);
        }
        let start = integer_sum(k);
        let l: usize = if k == self.start_indexes.len() - 1 {
            self.data.len() - start
        } else {
            k + 1
        };
        proof {
            assert(l == sub_len(k as int, self.backing().len() as int));
        }
        let p = self.start_indexes[k];
        let ghost n = self.backing().len() as int;
        let ghost orig = *self;
        let mut tmp: Vec<T> = Vec::with_capacity(l);
        let mut j: usize = 0;
        while j < l
        invariant
            orig.wf(),
            *self == orig,
            0 <= j <= l,
            l == sub_len(k as int, n),
            k < orig.table().len(),
            n == orig.backing().len(),
            p == orig.table()[k as int],
            start == tri(k as int),
            start + l <= n <= usize::MAX,
            tmp@.len() == j,
            forall|x: int| 0 <= x < j ==> tmp@[x] == orig@[tri(k as int) + x],
        decreases l - j,
        {
            proof {
                lemma_sub_of_member(n, k as int, j as int);
                orig.lemma_phys(tri(k as int) + j);
            }
            let off = rotate_offset(p, j, l);
            tmp.push(self.data[start + off]);
            j = j + 1;
        }
        j = 0;
        while j < l
        invariant
            0 <= j <= l,
            l == sub_len(k as int, n),
            k < orig.table().len(),
            n == self.backing().len(),
            n == orig.backing().len(),
            start == tri(k as int),
            start + l <= n <= usize::MAX,
            self.table() == orig.table(),
            tmp@.len() == l,
            forall|x: int| 0 <= x < l ==> tmp@[x] == orig@[tri(k as int) + x],
            forall|x: int|
                0 <= x < n && !(start <= x < start + j) ==> self.backing()[x]
                    == orig.backing()[x],
            forall|x: int| start <= x < start + j ==> self.backing()[x] == tmp@[x - start],
        decreases l - j,
        {
            self.data[start + j] = tmp[j];
            j = j + 1;
        }
        self.start_indexes[k] = 0;
        proof {
            assert(final(self).table() =~= orig.table().update(k as int, 0usize));
            let c = self.table().len() as int;
            assert(self.wf());
            assert forall|i: int| 0 <= i < n implies self@[i] == orig@[i] by {
                orig.lemma_phys(i);
                let m = sub_of(i);
                if m == k as int {
                    assert(self.phys(i) == i);
                    assert(self.backing()[i] == tmp@[i - start]);
                } else {
                    assert(self.phys(i) == orig.phys(i));
                    if m < k as int {
                        lemma_tri_mono(m + 1, k as int);
                    } else {
                        lemma_tri_mono(k as int + 1, m);
                    }
                    assert(!(start <= orig.phys(i) < start + l));
                }
            }
            assert(final(self)@ =~= old(self)@);
        }
    }

    /// Restores every subarray to natural order: afterwards the backing store
    /// reads the elements in logical order and every index-table entry is 0.
    pub(crate) fn normalize(&mut self)
        requires
            old(self).wf(),
        ensures
            final(self).wf(),
            final(self)@ == old(self)@,
            final(self).unrotated(),
            final(self)@ == final(self).backing(),
            final(self).table().len() == old(self).table().len(),
    {
        let c = self.start_indexes.len();
        let mut k: usize = 0;
        while k < c
            invariant
                0 <= k <= c,
                self.wf(),
                c == self.table().len(),
                self@ == old(self)@,
                self.backing().len() == old(self).backing().len(),
                forall|x: int| 0 <= x < k ==> self.table()[x] == 0,
            decreases c - k,
        {
            self.unrotate_subarray(k);
            k = k + 1;
        }
        proof {
            self.lemma_unrotated_view();
        }
    }
}

/// Rotated addressing within one subarray: where a rotation by pivot offset
/// `p` sends logical offset `j` in a subarray of `l` elements.
pub(crate) fn rotate_offset(p: usize, j: usize, l: usize) -> (r: usize)
    requires
        p < l,
        j < l,
    ensures
        r as int == rot(p as int, j as int, l as int),
        r < l,
{
    if j < l - p {
        p + j
    } else {
        j - (l - p)
    }
}

/// Relies on `Vec::capacity`: a vector's capacity is always at least its
/// length.
#[verifier::external_body]
fn vec_capacity<T>(v: &Vec<T>) -> (c: usize)
    ensures
        v@.len() <= c,
{
    v.capacity()
}

/// Relies on `Vec::reserve_exact`: reserving affects only capacity, never the
/// contents.
#[verifier::external_body]
fn vec_reserve_exact<T>(v: &mut Vec<T>, additional: usize)
    ensures
        final(v)@ == old(v)@,
{
    v.reserve_exact(additional)
}

/// Relies on `Vec::shrink_to_fit`: shrinking capacity never changes the
/// contents.
#[verifier::external_body]
fn vec_shrink_to_fit<T>(v: &mut Vec<T>)
    ensures
        final(v)@ == old(v)@,
{
    v.shrink_to_fit()
}

} // verus!
