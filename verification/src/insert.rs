//! Insertion at an arbitrary logical position.
//!
//! Inserting into a full subarray splits it at the insertion point and the
//! pivot, shifts the shorter of the two ranges by one slot, and ejects the
//! subarray's logical last element. The ejected element then cascades through
//! every following full subarray with a boundary-only exchange — each subarray
//! takes it as its new logical first element and ejects its own logical last —
//! until it is appended as a new subarray or spliced into the partial last
//! one. Total cost: O(size of the one split subarray) plus O(1) per cascaded
//! subarray, O(√n) overall.

use vstd::prelude::*;

use crate::rvec::{rot, RotatedVec};
use crate::tri::{integer_sum, integer_sum_inverse, lemma_structure, lemma_sub_of_bounds,
    lemma_sub_of_unique, lemma_tri_ge, lemma_tri_mono, num_subs, sub_len, sub_of, tri};

verus! {

broadcast use vstd::std_specs::vec::group_vec_axioms;

impl<T: Copy> RotatedVec<T> {
    /// Rotate-insert into the full subarray `k`: split the subarray at the
    /// insertion point and the existing pivot, shift the shorter of the two
    /// resulting ranges by one, write `element`, update the pivot offset to
    /// the new rotation amount, and return the displaced boundary element
    /// (the subarray's old logical last) for the cascade.
    fn rotate_insert_full(
        &mut self,
        k: usize,
        insert_idx: usize,
        Ghost(index): Ghost<int>,
        element: T,
    ) -> (carried: T)
        requires
            old(self).wf(),
            k < old(self).table().len(),
            sub_len(k as int, old(self).backing().len() as int) == k + 1,
            tri(k as int) <= index < tri(k as int + 1),
            insert_idx == old(self).phys(index),
        ensures
            final(self).wf(),
            final(self).backing().len() == old(self).backing().len(),
            final(self).table().len() == old(self).table().len(),
            forall|m: int|
                0 <= m < final(self).table().len() && m != k ==> final(self).table()[m] == old(
                    self,
                ).table()[m],
            forall|x: int|
                0 <= x < final(self).backing().len() && !(tri(k as int) <= x < tri(k as int + 1))
                    ==> final(self).backing()[x] == old(self).backing()[x],
            carried == old(self)@[tri(k as int + 1) - 1],
            forall|i: int| tri(k as int) <= i < index ==> final(self)@[i] == old(self)@[i],
            final(self)@[index] == element,
            forall|i: int| index < i < tri(k as int + 1) ==> final(self)@[i] == old(self)@[i - 1],
            forall|i: int|
                0 <= i < final(self)@.len() && !(tri(k as int) <= i < tri(k as int + 1))
                    ==> final(self)@[i] == old(self)@[i],
    {
        let ghost orig = *old(self);
        let ghost n = old(self).backing().len() as int;
        let ghost off_log = index - tri(k as int);
        proof {
            vstd::std_specs::vec::axiom_spec_len(&self.data);
            assert(n <= usize::MAX);
            lemma_structure(n);
            lemma_tri_ge(k as int);
            assert(tri(k as int + 1) == tri(k as int) + k + 1);
            assert(tri(k as int) + k + 1 <= n);
            orig.lemma_sub_elem(k as int, off_log);
            lemma_sub_of_unique(index, k as int);
        }
        let subarray_offset = integer_sum(k);
        let pivot_offset = self.start_indexes[k];
        let insert_offset = insert_idx - subarray_offset;
        let end_offset: usize = if pivot_offset == 0 {
            k
        } else {
            pivot_offset - 1
        };
        proof {
            orig.lemma_sub_elem(k as int, k as int);
            assert(insert_offset as int == rot(pivot_offset as int, off_log, k as int + 1));
            assert(end_offset as int == rot(pivot_offset as int, k as int, k as int + 1));
        }
        let carried = self.data[subarray_offset + end_offset];
        proof {
            assert(carried == orig@[tri(k as int) + k]);
        }
        if end_offset < pivot_offset && insert_offset >= pivot_offset {
            // The pivot does not wrap past the insertion point: shift the
            // range between the pivot and the insertion point back by one.
            let mut j = pivot_offset;
            while j < insert_offset
                invariant
                    1 <= pivot_offset <= j <= insert_offset <= k,
                    subarray_offset == tri(k as int),
                    subarray_offset + k + 1 <= n <= usize::MAX,
                    n == self.backing().len(),
                    self.table() == orig.table(),
                    forall|x: int|
                        0 <= x < n && !(subarray_offset + pivot_offset - 1 <= x < subarray_offset
                            + j - 1) ==> self.backing()[x] == orig.backing()[x],
                    forall|x: int|
                        subarray_offset + pivot_offset - 1 <= x < subarray_offset + j - 1
                            ==> self.backing()[x] == orig.backing()[x + 1],
                decreases insert_offset - j,
            {
                self.data[subarray_offset + j - 1] = self.data[subarray_offset + j];
                j = j + 1;
            }
            self.data[subarray_offset + insert_offset - 1] = element;
            self.start_indexes[k] = end_offset;
            proof {
                self.lemma_rotate_insert_case_a(
                    orig,
                    k as int,
                    index,
                    insert_offset as int,
                    element,
                );
            }
            carried
        } else {
            // The insertion point precedes the pivot (or the subarray is
            // unrotated): shift the range between the insertion point and the
            // slot before the pivot forward by one.
            let mut j = end_offset;
            while j > insert_offset
                invariant
                    insert_offset <= j <= end_offset <= k,
                    subarray_offset == tri(k as int),
                    subarray_offset + k + 1 <= n <= usize::MAX,
                    n == self.backing().len(),
                    self.table() == orig.table(),
                    forall|x: int|
                        0 <= x < n && !(subarray_offset + j < x <= subarray_offset + end_offset)
                            ==> self.backing()[x] == orig.backing()[x],
                    forall|x: int|
                        subarray_offset + j < x <= subarray_offset + end_offset
                            ==> self.backing()[x] == orig.backing()[x - 1],
                decreases j,
            {
                self.data[subarray_offset + j] = self.data[subarray_offset + j - 1];
                j = j - 1;
            }
            self.data[subarray_offset + insert_offset] = element;
            proof {
                self.lemma_rotate_insert_case_b(
                    orig,
                    k as int,
                    index,
                    insert_offset as int,
                    element,
                );
            }
            carried
        }
    }

    /// Inserts `element` at logical position `index`, shifting every later
    /// element one logical position to the right.
    ///
    /// This is an amortized O(√n) operation: at most one subarray is split
    /// and shifted, and the displaced boundary element cascades through the
    /// following subarrays with O(1) work each.
    pub fn insert(&mut self, index: usize, element: T)
        requires
            old(self).wf(),
            index <= old(self)@.len(),
            old(self)@.len() < usize::MAX,
        ensures
            final(self).wf(),
            final(self)@ == old(self)@.insert(index as int, element),
    {
        let ghost orig = *old(self);
        let ghost n = orig.backing().len() as int;
        let ghost count0 = orig.table().len() as int;
        proof {
            if n >= 1 {
                lemma_structure(n);
            }
        }
        let n_exec = self.data.len();
        let insert_idx: usize = if index < n_exec {
            self.get_real_index(index)
        } else {
            n_exec
        };
        proof {
            if (index as int) < n {
                orig.lemma_phys(index as int);
            } else {
                lemma_sub_of_bounds(n);
                if n >= 1 {
                    assert(sub_of(n) <= sub_of(n - 1) + 1);
                }
            }
            assert(sub_of(insert_idx as int) <= count0);
        }
        let subarray_idx = integer_sum_inverse(insert_idx);
        if subarray_idx == self.start_indexes.len() {
            // The insertion extends the container into a brand-new subarray:
            // the container was perfectly full, so append directly.
            self.start_indexes.push(0);
            self.data.push(element);
            proof {
                assert(index == n && insert_idx == n);
                assert(n == tri(count0));
                self.lemma_insert_grow(orig, element);
            }
            return;
        }
        proof {
            assert(count0 >= 1 && n >= 1);
            if index == n {
                assert(sub_of(n) == count0 - 1) by {
                    if sub_of(n) == count0 {
                        lemma_sub_of_bounds(n);
                        assert(tri(count0) <= n);
                    }
                }
            }
        }
        let subarray_full = self.is_last_subarray_full();
        if subarray_idx == self.start_indexes.len() - 1 && !subarray_full {
            // The insertion point lies in the partial last subarray, which is
            // unrotated: splice directly into the backing store.
            proof {
                let k = subarray_idx as int;
                assert(orig.table()[k] == 0);
                assert(n < tri(count0));
                if (index as int) < n {
                    orig.lemma_sub_elem(k, index - tri(k));
                    assert(insert_idx == index);
                } else {
                    lemma_sub_of_bounds(n - 1);
                }
                assert(tri(k) <= index < tri(k + 1));
            }
            self.data.insert(insert_idx, element);
            proof {
                self.lemma_insert_partial_last(orig, index as int, element);
            }
            return;
        }
        // The target subarray is full: rotate-insert locally, then cascade the
        // displaced boundary element across the following subarrays.
        proof {
            let k = subarray_idx as int;
            assert((index as int) < n) by {
                if index == n {
                    assert(sub_of(n) == count0 - 1);
                    assert(n == tri(count0));
                    lemma_sub_of_bounds(n);
                    lemma_sub_of_unique(n, count0);
                }
            }
            assert(k == sub_of(index as int));
            assert(sub_len(k, n) == k + 1) by {
                if k == count0 - 1 {
                    assert(n == tri(count0));
                    assert(tri(k + 1) <= n);
                }
            }
            assert(tri(k) <= index < tri(k + 1));
        }
        self.insert_into_full(subarray_idx, insert_idx, Ghost(index as int), element);
    }

    /// Insertion whose target subarray is full: rotate-insert locally, then
    /// cascade the displaced boundary element.
    fn insert_into_full(
        &mut self,
        subarray_idx: usize,
        insert_idx: usize,
        Ghost(index): Ghost<int>,
        element: T,
    )
        requires
            old(self).wf(),
            (subarray_idx as int) < old(self).table().len(),
            sub_len(subarray_idx as int, old(self).backing().len() as int) == subarray_idx + 1,
            tri(subarray_idx as int) <= index < tri(subarray_idx as int + 1),
            index < old(self).backing().len(),
            old(self).backing().len() < usize::MAX,
            insert_idx == old(self).phys(index),
        ensures
            final(self).wf(),
            final(self)@ == old(self)@.insert(index, element),
    {
        let ghost orig = *old(self);
        let ghost n = orig.backing().len() as int;
        let ghost count0 = orig.table().len() as int;
        let ghost target = orig@.insert(index, element);
        let carried = self.rotate_insert_full(subarray_idx, insert_idx, Ghost(index), element);
        proof {
            orig@.insert_ensures(index, element);
            lemma_structure(n);
            let k0 = subarray_idx as int;
            if k0 + 1 <= count0 - 1 {
                lemma_tri_mono(k0 + 1, count0 - 1);
            }
            lemma_tri_mono(k0 + 1, count0);
            assert(tri(k0 + 1) > index);
            assert(carried == target[tri(k0 + 1)]);
            assert forall|i: int| 0 <= i < tri(k0 + 1) implies self@[i] == target[i] by {
                if i < tri(k0) {
                    assert(self@[i] == orig@[i]);
                    assert(i < index);
                }
            }
        }
        self.cascade_insert(subarray_idx, carried, Ghost(orig), Ghost(index), Ghost(element));
    }

    /// Carries the element ejected from subarray `k0` across every following
    /// full subarray with a boundary-only exchange, finally appending it as a
    /// new subarray or splicing it into the partial last one.
    fn cascade_insert(
        &mut self,
        k0: usize,
        carried: T,
        Ghost(orig): Ghost<Self>,
        Ghost(index): Ghost<int>,
        Ghost(element): Ghost<T>,
    )
        requires
            orig.wf(),
            old(self).wf(),
            old(self).backing().len() == orig.backing().len(),
            old(self).table().len() == orig.table().len(),
            orig.backing().len() < usize::MAX,
            (k0 as int) < orig.table().len(),
            tri(k0 as int) <= index < tri(k0 as int + 1),
            0 <= index < orig.backing().len(),
            sub_len(k0 as int, orig.backing().len() as int) == k0 + 1,
            forall|m: int|
                k0 < m < orig.table().len() ==> old(self).table()[m] == orig.table()[m],
            forall|x: int|
                tri(k0 as int + 1) <= x < orig.backing().len() ==> old(self).backing()[x]
                    == orig.backing()[x],
            forall|i: int|
                0 <= i < tri(k0 as int + 1) ==> old(self)@[i] == orig@.insert(index, element)[i],
            carried == orig@.insert(index, element)[tri(k0 as int + 1)],
        ensures
            final(self).wf(),
            final(self)@ == orig@.insert(index, element),
    {
        let ghost n = orig.backing().len() as int;
        let ghost count0 = orig.table().len() as int;
        let ghost target = orig@.insert(index, element);
        proof {
            lemma_structure(n);
            orig@.insert_ensures(index, element);
            assert(target.len() == n + 1);
            lemma_tri_mono(k0 as int + 1, count0);
        }
        let mut prev_end_elem = carried;
        let max_subarray_idx = self.start_indexes.len() - 1;
        let last_subarray_full = self.is_last_subarray_full();
        let stop_exec: usize = if last_subarray_full {
            max_subarray_idx + 1
        } else {
            max_subarray_idx
        };
        let mut cur = k0 + 1;
        proof {
            if k0 as int + 1 <= count0 - 1 {
                lemma_tri_mono(k0 as int + 1, count0 - 1);
            }
        }
        while cur < stop_exec
            invariant
                orig.wf(),
                self.wf(),
                n == orig.backing().len(),
                n == self.backing().len(),
                n < usize::MAX,
                count0 == self.table().len(),
                count0 == orig.table().len(),
                k0 as int + 1 <= cur <= stop_exec,
                max_subarray_idx == count0 - 1,
                last_subarray_full == (n == tri(count0)),
                stop_exec == (if last_subarray_full {
                    count0
                } else {
                    count0 - 1
                }),
                0 <= index <= n,
                index < tri(cur as int),
                target == orig@.insert(index, element),
                target.len() == n + 1,
                tri(cur as int) <= n,
                forall|i: int| tri(cur as int) < i <= n ==> target[i] == orig@[i - 1],
                forall|m: int| cur <= m < count0 ==> self.table()[m] == orig.table()[m],
                forall|x: int|
                    tri(cur as int) <= x < n ==> self.backing()[x] == orig.backing()[x],
                forall|i: int| 0 <= i < tri(cur as int) ==> self@[i] == target[i],
                prev_end_elem == target[tri(cur as int)],
            decreases stop_exec - cur,
        {
            let ghost s_pre = *self;
            proof {
                lemma_structure(n);
                assert(sub_len(cur as int, n) == cur + 1) by {
                    if cur as int == count0 - 1 {
                        assert(n == tri(count0));
                    }
                }
                assert(tri(cur as int + 1) == tri(cur as int) + cur + 1);
                assert(tri(cur as int) + cur + 1 <= n);
            }
            let cur_subarray_offset = integer_sum(cur);
            let p = self.start_indexes[cur];
            let e_off: usize = if p == 0 {
                cur
            } else {
                p - 1
            };
            let e_idx = cur_subarray_offset + e_off;
            proof {
                s_pre.lemma_sub_elem(cur as int, cur as int);
                assert(e_off as int == rot(p as int, cur as int, cur as int + 1));
                assert(e_idx < n);
            }
            let next_end_elem = self.data[e_idx];
            self.data[e_idx] = prev_end_elem;
            self.start_indexes[cur] = e_off;
            proof {
                self.lemma_cascade_step(s_pre, orig, cur as int, index, target, prev_end_elem);
                assert(next_end_elem == target[tri(cur as int + 1)]);
                if cur as int + 1 <= count0 - 1 {
                    lemma_tri_mono(cur as int + 1, count0 - 1);
                }
                lemma_tri_mono(cur as int + 1, count0);
            }
            prev_end_elem = next_end_elem;
            cur = cur + 1;
        }
        if last_subarray_full {
            // every previous subarray was full: the carried element starts a
            // new subarray of its own
            let ghost s_mid = *self;
            self.data.push(prev_end_elem);
            self.start_indexes.push(0);
            proof {
                self.lemma_insert_finish_full(s_mid, orig, index, element, prev_end_elem);
            }
        } else {
            // splice the carried element in as the logical first element of
            // the still-partial last subarray
            let ghost s_mid = *self;
            proof {
                lemma_structure(n);
                assert(tri(max_subarray_idx as int) < n);
            }
            let max_subarray_offset = integer_sum(max_subarray_idx);
            self.data.insert(max_subarray_offset, prev_end_elem);
            proof {
                self.lemma_insert_finish_partial(s_mid, orig, index, element, prev_end_elem);
            }
        }
    }

    /// A perfectly full container grows by starting a new subarray holding
    /// only the appended element.
    proof fn lemma_insert_grow(&self, orig: Self, element: T)
        requires
            orig.wf(),
            orig.backing().len() == tri(orig.table().len() as int),
            orig.backing().len() < usize::MAX,
            self.backing() == orig.backing().push(element),
            self.table() == orig.table().push(0usize),
        ensures
            self.wf(),
            self@ == orig@.insert(orig.backing().len() as int, element),
    {
        let n = orig.backing().len() as int;
        let count0 = orig.table().len() as int;
        let target = orig@.insert(n, element);
        orig@.insert_ensures(n, element);
        if n >= 1 {
            lemma_structure(n);
        }
        lemma_tri_mono(count0, count0 + 1);
        lemma_sub_of_unique(n, count0);
        assert(self.wf());
        assert forall|i: int| 0 <= i <= n implies self@[i] == target[i] by {
            if i < n {
                orig.lemma_phys(i);
                self.lemma_phys(i);
                assert(self.phys(i) == orig.phys(i));
            } else {
                self.lemma_sub_elem(count0, 0);
                assert(self.phys(n) == n);
            }
        }
        assert(self@ =~= target);
    }

    /// Splicing directly into the unrotated, partially filled last subarray
    /// realizes a logical insertion.
    proof fn lemma_insert_partial_last(&self, orig: Self, index: int, element: T)
        requires
            orig.wf(),
            orig.table().len() >= 1,
            orig.backing().len() < tri(orig.table().len() as int),
            orig.backing().len() < usize::MAX,
            tri(orig.table().len() as int - 1) <= index <= orig.backing().len(),
            self.backing() == orig.backing().insert(index, element),
            self.table() == orig.table(),
        ensures
            self.wf(),
            self@ == orig@.insert(index, element),
    {
        let n = orig.backing().len() as int;
        let count0 = orig.table().len() as int;
        let k = count0 - 1;
        let target = orig@.insert(index, element);
        assert(count0 >= 1 && n >= 1);
        lemma_structure(n);
        lemma_tri_ge(k);
        assert(0 <= index <= orig@.len());
        orig@.insert_ensures(index, element);
        orig.backing().insert_ensures(index, element);
        assert(orig.table()[k] == 0);
        lemma_sub_of_unique(n, k);
        assert(self.table().len() == num_subs(n + 1));
        assert(self.wf());
        assert forall|i: int| 0 <= i <= n implies self@[i] == target[i] by {
            if i < tri(k) {
                orig.lemma_phys(i);
                self.lemma_phys(i);
                assert(self.phys(i) == orig.phys(i));
                assert(self.phys(i) < tri(sub_of(i) + 1));
                lemma_tri_mono(sub_of(i) + 1, k);
            } else {
                lemma_sub_of_unique(i, k);
                self.lemma_sub_elem(k, i - tri(k));
                assert(self.phys(i) == i);
                if i < index {
                    orig.lemma_sub_elem(k, i - tri(k));
                    assert(orig.phys(i) == i);
                } else if i > index {
                    orig.lemma_sub_elem(k, i - 1 - tri(k));
                    assert(orig.phys(i - 1) == i - 1);
                }
            }
        }
        assert(self@ =~= target);
    }

    /// One cascade step: subarray `c` takes the carried element as its new
    /// logical first element (advancing its pivot) and ejects its old logical
    /// last element from the slot just written.
    proof fn lemma_cascade_step(
        &self,
        s_pre: Self,
        orig: Self,
        c: int,
        index: int,
        target: Seq<T>,
        prev: T,
    )
        requires
            orig.wf(),
            s_pre.wf(),
            s_pre.backing().len() == orig.backing().len(),
            self.backing().len() == orig.backing().len(),
            s_pre.table().len() == orig.table().len(),
            self.table().len() == orig.table().len(),
            0 <= index < tri(c),
            c < orig.table().len(),
            orig.backing().len() < usize::MAX,
            sub_len(c, orig.backing().len() as int) == c + 1,
            tri(c + 1) <= orig.backing().len(),
            target.len() == orig.backing().len() + 1,
            forall|i: int| tri(c) < i <= orig.backing().len() ==> target[i] == orig@[i - 1],
            forall|m: int|
                c <= m < orig.table().len() ==> s_pre.table()[m] == orig.table()[m],
            forall|x: int|
                tri(c) <= x < orig.backing().len() ==> s_pre.backing()[x] == orig.backing()[x],
            forall|i: int| 0 <= i < tri(c) ==> s_pre@[i] == target[i],
            prev == target[tri(c)],
            self.table() == s_pre.table().update(
                c,
                rot(orig.table()[c] as int, c, c + 1) as usize,
            ),
            self.backing() == s_pre.backing().update(
                tri(c) + rot(orig.table()[c] as int, c, c + 1),
                prev,
            ),
        ensures
            self.wf(),
            forall|m: int| c + 1 <= m < orig.table().len() ==> self.table()[m] == orig.table()[m],
            forall|x: int|
                tri(c + 1) <= x < orig.backing().len() ==> self.backing()[x] == orig.backing()[x],
            forall|i: int| 0 <= i < tri(c + 1) ==> self@[i] == target[i],
            s_pre.backing()[tri(c) + rot(orig.table()[c] as int, c, c + 1)] == target[tri(c + 1)],
    {
        let n = orig.backing().len() as int;
        let count0 = orig.table().len() as int;
        let p = orig.table()[c] as int;
        let e_off = rot(p, c, c + 1);
        let e_idx = tri(c) + e_off;
        lemma_structure(n);
        lemma_tri_ge(c);
        assert(tri(c + 1) == tri(c) + c + 1);
        assert(self.wf()) by {
            if count0 > 0 && n < tri(count0) {
                assert(c < count0 - 1) by {
                    if c == count0 - 1 {
                        assert(tri(c + 1) <= n);
                    }
                }
            }
        }
        // the slot just overwritten held subarray c's old logical last
        orig.lemma_sub_elem(c, c);
        assert(orig.phys(tri(c) + c) == e_idx);
        assert(s_pre.backing()[e_idx] == orig.backing()[e_idx]);
        assert(s_pre.backing()[e_idx] == orig@[tri(c) + c]);
        assert(s_pre.backing()[e_idx] == target[tri(c + 1)]);
        assert forall|i: int| 0 <= i < tri(c + 1) implies self@[i] == target[i] by {
            if i < tri(c) {
                s_pre.lemma_phys(i);
                self.lemma_phys(i);
                let m = sub_of(i);
                assert(self.phys(i) == s_pre.phys(i));
                if m < c {
                    lemma_tri_mono(m + 1, c);
                } else {
                    lemma_tri_mono(c, m);
                }
                assert(self.backing()[s_pre.phys(i)] == s_pre.backing()[s_pre.phys(i)]);
            } else {
                let j = i - tri(c);
                assert(0 <= e_off <= c);
                assert(self.table()[c] as int == e_off);
                assert(sub_len(c, self.backing().len() as int) == c + 1);
                self.lemma_sub_elem(c, j);
                let q = rot(e_off, j, c + 1);
                assert(self.phys(i) == tri(c) + q);
                if j == 0 {
                    assert(q == e_off);
                    assert(self.backing()[e_idx] == prev);
                } else {
                    assert(q == rot(p, j - 1, c + 1));
                    assert(q != e_off);
                    assert(self.backing()[tri(c) + q] == orig.backing()[tri(c) + q]);
                    orig.lemma_sub_elem(c, j - 1);
                    assert(orig.phys(tri(c) + j - 1) == tri(c) + q);
                    assert(self@[i] == orig@[i - 1]);
                }
            }
        }
    }

    /// Final cascade step when every subarray was full: the carried element
    /// is appended as a new one-element subarray.
    proof fn lemma_insert_finish_full(
        &self,
        s_mid: Self,
        orig: Self,
        index: int,
        element: T,
        prev: T,
    )
        requires
            orig.wf(),
            s_mid.wf(),
            orig.backing().len() < usize::MAX,
            orig.backing().len() == tri(orig.table().len() as int),
            s_mid.backing().len() == orig.backing().len(),
            s_mid.table().len() == orig.table().len(),
            0 <= index <= orig.backing().len(),
            prev == orig@.insert(index, element)[orig.backing().len() as int],
            forall|i: int|
                0 <= i < orig.backing().len() ==> s_mid@[i] == orig@.insert(index, element)[i],
            self.backing() == s_mid.backing().push(prev),
            self.table() == s_mid.table().push(0usize),
        ensures
            self.wf(),
            self@ == orig@.insert(index, element),
    {
        let n = orig.backing().len() as int;
        let count0 = orig.table().len() as int;
        let target = orig@.insert(index, element);
        orig@.insert_ensures(index, element);
        if n >= 1 {
            lemma_structure(n);
        }
        lemma_tri_mono(count0, count0 + 1);
        lemma_sub_of_unique(n, count0);
        assert(self.wf());
        assert forall|i: int| 0 <= i <= n implies self@[i] == target[i] by {
            if i < n {
                s_mid.lemma_phys(i);
                self.lemma_phys(i);
                let m = sub_of(i);
                lemma_tri_mono(m + 1, count0);
                assert(self.phys(i) == s_mid.phys(i));
            } else {
                self.lemma_sub_elem(count0, 0);
                assert(self.phys(n) == n);
            }
        }
        assert(self@ =~= target);
    }

    /// Final cascade step into a partial last subarray: the carried element
    /// is spliced in at the subarray's physical start, becoming its logical
    /// first element.
    proof fn lemma_insert_finish_partial(
        &self,
        s_mid: Self,
        orig: Self,
        index: int,
        element: T,
        prev: T,
    )
        requires
            orig.wf(),
            s_mid.wf(),
            orig.backing().len() < usize::MAX,
            orig.table().len() >= 1,
            orig.backing().len() < tri(orig.table().len() as int),
            s_mid.backing().len() == orig.backing().len(),
            s_mid.table().len() == orig.table().len(),
            0 <= index < tri(orig.table().len() as int - 1),
            ({
                let target = orig@.insert(index, element);
                let l = orig.table().len() as int - 1;
                &&& target.len() == orig.backing().len() + 1
                &&& prev == target[tri(l)]
                &&& (forall|i: int| 0 <= i < tri(l) ==> s_mid@[i] == target[i])
                &&& (forall|m: int|
                    l <= m < orig.table().len() ==> s_mid.table()[m] == orig.table()[m])
                &&& (forall|x: int|
                    tri(l) <= x < orig.backing().len() ==> s_mid.backing()[x]
                        == orig.backing()[x])
            }),
            self.table() == s_mid.table(),
            self.backing() == s_mid.backing().insert(
                tri(orig.table().len() as int - 1),
                prev,
            ),
        ensures
            self.wf(),
            self@ == orig@.insert(index, element),
    {
        let n = orig.backing().len() as int;
        let count0 = orig.table().len() as int;
        let l = count0 - 1;
        let target = orig@.insert(index, element);
        assert(count0 >= 1 && n >= 1);
        lemma_structure(n);
        lemma_tri_ge(l);
        orig@.insert_ensures(index, element);
        s_mid.backing().insert_ensures(tri(l), prev);
        assert(orig.table()[l] == 0);
        lemma_sub_of_unique(n, l);
        assert(self.table().len() == num_subs(n + 1));
        assert(self.wf());
        assert forall|i: int| 0 <= i <= n implies self@[i] == target[i] by {
            if i < tri(l) {
                s_mid.lemma_phys(i);
                self.lemma_phys(i);
                let m = sub_of(i);
                assert(self.phys(i) == s_mid.phys(i));
                lemma_tri_mono(m + 1, l);
                assert(self.phys(i) < tri(l));
            } else {
                lemma_sub_of_unique(i, l);
                self.lemma_sub_elem(l, i - tri(l));
                assert(self.table()[l] == 0);
                assert(self.phys(i) == i);
                if i > tri(l) {
                    assert(self.backing()[i] == s_mid.backing()[i - 1]);
                    assert(s_mid.backing()[i - 1] == orig.backing()[i - 1]);
                    orig.lemma_sub_elem(l, i - 1 - tri(l));
                    assert(orig.table()[l] == 0);
                    assert(orig.phys(i - 1) == i - 1);
                    assert(self@[i] == orig@[i - 1]);
                }
            }
        }
        assert(self@ =~= target);
    }

    /// Appends `value` to the back of the container.
    ///
    /// This is an amortized O(√n) operation (the cascade of
    /// [`RotatedVec::insert`] never runs when inserting at the end).
    pub fn push(&mut self, value: T)
        requires
            old(self).wf(),
            old(self)@.len() < usize::MAX,
        ensures
            final(self).wf(),
            final(self)@ == old(self)@.push(value),
    {
        let n = self.data.len();
        self.insert(n, value);
        proof {
            old(self)@.insert_ensures(n as int, value);
            assert(final(self)@ =~= old(self)@.push(value));
        }
    }

    /// After the backward shift (pivot in `(0, insertion point]`), the
    /// subarray's logical contents are the old ones with `element` inserted
    /// and the old logical last dropped.
    proof fn lemma_rotate_insert_case_a(
        &self,
        orig: Self,
        k: int,
        index: int,
        io: int,
        element: T,
    )
        requires
            orig.wf(),
            0 <= k < orig.table().len(),
            sub_len(k, orig.backing().len() as int) == k + 1,
            tri(k) <= index < tri(k + 1),
            sub_of(index) == k,
            1 <= orig.table()[k] as int <= io <= k,
            io == rot(orig.table()[k] as int, index - tri(k), k + 1),
            self.backing().len() == orig.backing().len(),
            self.table() == orig.table().update(k, (orig.table()[k] - 1) as usize),
            forall|x: int|
                0 <= x < self.backing().len() && !(tri(k) + orig.table()[k] - 1 <= x <= tri(k) + io
                    - 1) ==> self.backing()[x] == orig.backing()[x],
            forall|x: int|
                tri(k) + orig.table()[k] - 1 <= x < tri(k) + io - 1 ==> self.backing()[x]
                    == orig.backing()[x + 1],
            self.backing()[tri(k) + io - 1] == element,
        ensures
            self.wf(),
            forall|i: int| tri(k) <= i < index ==> self@[i] == orig@[i],
            self@[index] == element,
            forall|i: int| index < i < tri(k + 1) ==> self@[i] == orig@[i - 1],
            forall|i: int|
                0 <= i < self@.len() && !(tri(k) <= i < tri(k + 1)) ==> self@[i] == orig@[i],
    {
        let n = orig.backing().len() as int;
        let p = orig.table()[k] as int;
        let s = tri(k);
        lemma_structure(n);
        lemma_tri_ge(k);
        assert(tri(k + 1) == s + k + 1);
        assert(self.wf()) by {
            assert(self.table().len() == orig.table().len());
            assert(forall|m: int|
                0 <= m < self.table().len() ==> (self.table()[m] as int) <= m);
            if self.table().len() > 0 && (self.backing().len() as int) < tri(
                self.table().len() as int,
            ) {
                assert(n < tri(orig.table().len() as int));
                assert(k != orig.table().len() - 1) by {
                    if k == orig.table().len() - 1 {
                        assert(tri(k + 1) <= n);
                        assert(tri(orig.table().len() as int) <= n);
                    }
                }
            }
        }
        assert forall|i: int| tri(k) <= i < tri(k + 1) implies self@[i] == (if i < index {
            orig@[i]
        } else if i == index {
            element
        } else {
            orig@[i - 1]
        }) by {
            let j = i - s;
            self.lemma_sub_elem(k, j);
            assert(self.table()[k] as int == p - 1);
            assert(sub_len(k, n) == k + 1);
            let q = rot(p - 1, j, k + 1);
            assert(self.phys(i) == s + q);
            if i < index {
                // logical offsets below the insertion point sit one slot back
                orig.lemma_sub_elem(k, j);
                assert(q == p - 1 + j);
                assert(self.backing()[s + q] == orig.backing()[s + q + 1]);
                assert(orig.phys(i) == s + p + j);
            } else if i == index {
                assert(q == io - 1);
            } else {
                orig.lemma_sub_elem(k, j - 1);
                assert(rot(p, j - 1, k + 1) == q);
                assert(self.backing()[s + q] == orig.backing()[s + q]);
            }
        }
        assert forall|i: int|
            0 <= i < self@.len() && !(tri(k) <= i < tri(k + 1)) implies self@[i] == orig@[i] by {
            self.lemma_phys(i);
            orig.lemma_phys(i);
            let m = sub_of(i);
            assert(m != k);
            if m < k {
                lemma_tri_mono(m + 1, k);
            } else {
                lemma_tri_mono(k + 1, m);
            }
            assert(self.phys(i) == orig.phys(i));
            assert(!(s <= orig.phys(i) < tri(k + 1)));
        }
    }

    /// After the forward shift (unrotated subarray, or insertion point before
    /// the pivot), the subarray's logical contents are the old ones with
    /// `element` inserted and the old logical last dropped.
    proof fn lemma_rotate_insert_case_b(
        &self,
        orig: Self,
        k: int,
        index: int,
        io: int,
        element: T,
    )
        requires
            orig.wf(),
            0 <= k < orig.table().len(),
            sub_len(k, orig.backing().len() as int) == k + 1,
            tri(k) <= index < tri(k + 1),
            sub_of(index) == k,
            io == rot(orig.table()[k] as int, index - tri(k), k + 1),
            orig.table()[k] == 0 || io < orig.table()[k] as int,
            self.backing().len() == orig.backing().len(),
            self.table() == orig.table(),
            ({
                let eo = rot(orig.table()[k] as int, k, k + 1);
                &&& (forall|x: int|
                    0 <= x < self.backing().len() && !(tri(k) + io <= x <= tri(k) + eo)
                        ==> self.backing()[x] == orig.backing()[x])
                &&& (forall|x: int|
                    tri(k) + io < x <= tri(k) + eo ==> self.backing()[x] == orig.backing()[x - 1])
                &&& self.backing()[tri(k) + io] == element
            }),
        ensures
            self.wf(),
            forall|i: int| tri(k) <= i < index ==> self@[i] == orig@[i],
            self@[index] == element,
            forall|i: int| index < i < tri(k + 1) ==> self@[i] == orig@[i - 1],
            forall|i: int|
                0 <= i < self@.len() && !(tri(k) <= i < tri(k + 1)) ==> self@[i] == orig@[i],
    {
        let n = orig.backing().len() as int;
        let p = orig.table()[k] as int;
        let s = tri(k);
        let eo = rot(p, k, k + 1);
        lemma_structure(n);
        lemma_tri_ge(k);
        assert(tri(k + 1) == s + k + 1);
        assert(self.wf());
        assert forall|i: int| tri(k) <= i < tri(k + 1) implies self@[i] == (if i < index {
            orig@[i]
        } else if i == index {
            element
        } else {
            orig@[i - 1]
        }) by {
            let j = i - s;
            self.lemma_sub_elem(k, j);
            assert(sub_len(k, n) == k + 1);
            let q = rot(p, j, k + 1);
            assert(self.phys(i) == s + q);
            if i < index {
                orig.lemma_sub_elem(k, j);
                assert(orig.phys(i) == s + q);
                assert(!(s + io <= s + q <= s + eo)) by {
                    if p == 0 {
                        assert(q == j && io == index - s && eo == k);
                    }
                }
                assert(self.backing()[s + q] == orig.backing()[s + q]);
            } else if i == index {
                assert(q == io);
            } else {
                orig.lemma_sub_elem(k, j - 1);
                assert(rot(p, j - 1, k + 1) == q - 1 || (q == 0 && rot(p, j - 1, k + 1) == k));
                assert(s + io < s + q <= s + eo) by {
                    if p == 0 {
                        assert(q == j && io == index - s && eo == k);
                    }
                }
                assert(self.backing()[s + q] == orig.backing()[s + q - 1]);
                assert(rot(p, j - 1, k + 1) == q - 1);
            }
        }
        assert forall|i: int|
            0 <= i < self@.len() && !(tri(k) <= i < tri(k + 1)) implies self@[i] == orig@[i] by {
            self.lemma_phys(i);
            orig.lemma_phys(i);
            let m = sub_of(i);
            assert(m != k);
            if m < k {
                lemma_tri_mono(m + 1, k);
            } else {
                lemma_tri_mono(k + 1, m);
            }
            assert(self.phys(i) == orig.phys(i));
            assert(!(s <= orig.phys(i) < tri(k + 1)));
        }
    }
}

} // verus!
