//! Removal at an arbitrary logical position.
//!
//! Removing from a subarray before the last mirrors insertion: the subarray is
//! split at the removal point and the pivot, the shorter range shifts by one,
//! leaving a gap at the subarray's logical end. Each following full subarray
//! then moves its own logical first element backward to fill its
//! predecessor's gap, advancing its pivot offset by one; the last subarray's
//! logical first element fills the final gap, and the last subarray shrinks
//! by one via a direct removal. If the last subarray becomes empty, its index
//! table entry is dropped. Cost: O(√n) amortized.

use vstd::prelude::*;

use crate::rvec::{rot, RotatedVec};
use crate::tri::{integer_sum, integer_sum_inverse, lemma_structure, lemma_sub_of_unique,
    lemma_tri_ge, lemma_tri_mono, sub_len, sub_of, tri};

verus! {

impl<T: Copy> RotatedVec<T> {
    /// Rotate-remove from the full subarray `k`: split the subarray at the
    /// removal point and the pivot, shift the shorter range by one to close
    /// the hole, update the pivot offset, and leave a gap slot at the
    /// subarray's logical end. Returns the gap's physical offset within the
    /// subarray.
    fn rotate_remove_full(&mut self, k: usize, remove_idx: usize, Ghost(index): Ghost<int>) -> (g:
        usize)
        requires
            old(self).wf(),
            k < old(self).table().len(),
            sub_len(k as int, old(self).backing().len() as int) == k + 1,
            tri(k as int) <= index < tri(k as int + 1),
            remove_idx == old(self).phys(index),
        ensures
            final(self).wf(),
            final(self).backing().len() == old(self).backing().len(),
            final(self).table().len() == old(self).table().len(),
            forall|m: int|
                0 <= m < final(self).table().len() && m != k ==> final(self).table()[m] == old(
                    self,
                ).table()[m],
            forall|x: int|
                0 <= x < final(self).backing().len() && !(tri(k as int) <= x < tri(k as int + 1))
                    ==> final(self).backing()[x] == old(self).backing()[x],
            forall|i: int| tri(k as int) <= i < index ==> final(self)@[i] == old(self)@[i],
            forall|i: int|
                index <= i < tri(k as int + 1) - 1 ==> final(self)@[i] == old(self)@[i + 1],
            forall|i: int|
                0 <= i < final(self)@.len() && !(tri(k as int) <= i < tri(k as int + 1))
                    ==> final(self)@[i] == old(self)@[i],
            g <= k,
            final(self).phys(tri(k as int + 1) - 1) == tri(k as int) + g,
    {
        let ghost orig = *old(self);
        let ghost n = old(self).backing().len() as int;
        let ghost off_log = index - tri(k as int);
        proof {
            vstd::std_specs::vec::axiom_spec_len(&self.data);
            assert(n <= usize::MAX);
            lemma_structure(n);
            lemma_tri_ge(k as int);
            assert(tri(k as int + 1) == tri(k as int) + k + 1);
            assert(tri(k as int) + k + 1 <= n);
            orig.lemma_sub_elem(k as int, off_log);
            lemma_sub_of_unique(index, k as int);
        }
        let subarray_offset = integer_sum(k);
        let pivot_offset = self.start_indexes[k];
        let remove_offset = remove_idx - subarray_offset;
        let end_offset: usize = if pivot_offset == 0 {
            k
        } else {
            pivot_offset - 1
        };
        proof {
            orig.lemma_sub_elem(k as int, k as int);
            assert(remove_offset as int == rot(pivot_offset as int, off_log, k as int + 1));
            assert(end_offset as int == rot(pivot_offset as int, k as int, k as int + 1));
        }
        if end_offset < pivot_offset && remove_offset >= pivot_offset {
            // The pivot does not wrap past the removal point: shift the range
            // between the pivot and the removal point forward by one; the old
            // pivot slot becomes the gap.
            let mut j = remove_offset;
            while j > pivot_offset
                invariant
                    1 <= pivot_offset <= j <= remove_offset <= k,
                    subarray_offset == tri(k as int),
                    subarray_offset + k + 1 <= n <= usize::MAX,
                    n == self.backing().len(),
                    self.table() == orig.table(),
                    forall|x: int|
                        0 <= x < n && !(subarray_offset + j < x <= subarray_offset + remove_offset)
                            ==> self.backing()[x] == orig.backing()[x],
                    forall|x: int|
                        subarray_offset + j < x <= subarray_offset + remove_offset
                            ==> self.backing()[x] == orig.backing()[x - 1],
                decreases j,
            {
                self.data[subarray_offset + j] = self.data[subarray_offset + j - 1];
                j = j - 1;
            }
            let new_pivot: usize = if pivot_offset == k {
                0
            } else {
                pivot_offset + 1
            };
            self.start_indexes[k] = new_pivot;
            proof {
                self.lemma_rotate_remove_case_a(orig, k as int, index, remove_offset as int);
            }
            pivot_offset
        } else {
            // The removal point precedes the pivot (or the subarray is
            // unrotated): shift the range between the removal point and the
            // slot before the pivot back by one; that slot becomes the gap.
            let mut j = remove_offset;
            while j < end_offset
                invariant
                    remove_offset <= j <= end_offset <= k,
                    subarray_offset == tri(k as int),
                    subarray_offset + k + 1 <= n <= usize::MAX,
                    n == self.backing().len(),
                    self.table() == orig.table(),
                    forall|x: int|
                        0 <= x < n && !(subarray_offset + remove_offset <= x < subarray_offset + j)
                            ==> self.backing()[x] == orig.backing()[x],
                    forall|x: int|
                        subarray_offset + remove_offset <= x < subarray_offset + j
                            ==> self.backing()[x] == orig.backing()[x + 1],
                decreases end_offset - j,
            {
                self.data[subarray_offset + j] = self.data[subarray_offset + j + 1];
                j = j + 1;
            }
            proof {
                self.lemma_rotate_remove_case_b(orig, k as int, index, remove_offset as int);
            }
            end_offset
        }
    }

    /// Removes and returns the element at logical position `index`, shifting
    /// every later element one logical position to the left.
    ///
    /// This is an amortized O(√n) operation: at most one subarray is split
    /// and shifted, and its gap is refilled across the following subarrays
    /// with O(1) work each.
    pub fn remove(&mut self, index: usize) -> (r: T)
        requires
            old(self).wf(),
            index < old(self)@.len(),
        ensures
            final(self).wf(),
            r == old(self)@[index as int],
            final(self)@ == old(self)@.remove(index as int),
    {
        let ghost orig0 = *old(self);
        let ghost n = orig0.backing().len() as int;
        // read the element to return before any slot is overwritten
        let remove_idx0 = self.get_real_index(index);
        let element = self.data[remove_idx0];
        proof {
            orig0.lemma_phys(index as int);
            assert(element == orig0@[index as int]);
            lemma_structure(n);
        }
        // if the last subarray is full and rotated, restore it to natural
        // order first, so that shrinking it keeps the invariant
        if self.is_last_subarray_full() {
            let c = self.start_indexes.len();
            self.unrotate_subarray(c - 1);
        }
        let ghost s1 = *self;
        proof {
            assert(s1.wf() && s1@ == orig0@);
            assert(s1.table()[s1.table().len() - 1] == 0);
            s1.lemma_phys(index as int);
        }
        let remove_idx = self.get_real_index(index);
        let subarray_idx = integer_sum_inverse(remove_idx);
        let max_subarray_idx = self.start_indexes.len() - 1;
        proof {
            assert(subarray_idx as int == sub_of(index as int));
        }
        if subarray_idx < max_subarray_idx {
            // hard exchange in subarray `subarray_idx`, then refill the gap
            // across the following subarrays
            proof {
                assert(sub_len(subarray_idx as int, n) == subarray_idx + 1);
                assert(tri(subarray_idx as int) <= index < tri(subarray_idx as int + 1)) by {
                    s1.lemma_phys(index as int);
                }
            }
            let g = self.rotate_remove_full(subarray_idx, remove_idx, Ghost(index as int));
            proof {
                s1@.remove_ensures(index as int);
                assert forall|i: int|
                    0 <= i < tri(subarray_idx as int + 1) - 1 implies self@[i] == s1@.remove(
                    index as int,
                )[i] by {
                    if i < tri(subarray_idx as int) {
                        assert(self@[i] == s1@[i]);
                        assert(i < index);
                    }
                }
            }
            self.cascade_remove(subarray_idx, g, Ghost(s1), Ghost(index as int));
            proof {
                assert(final(self)@ =~= old(self)@.remove(index as int));
            }
        } else {
            // the removal point lies in the last subarray, which is now
            // unrotated: remove directly from the backing store
            let ghost s_pre = *self;
            proof {
                s1.lemma_sub_elem(subarray_idx as int, index - tri(subarray_idx as int));
                assert(remove_idx == index);
            }
            let max_subarray_offset = integer_sum(max_subarray_idx);
            let _removed = self.data.remove(remove_idx);
            if max_subarray_offset == self.data.len() {
                self.start_indexes.pop();
            }
            proof {
                self.lemma_remove_last(s1, index as int);
                assert(final(self)@ =~= old(self)@.remove(index as int));
            }
        }
        element
    }

    /// Removes the last element and returns it, or returns `None` (leaving
    /// the container unchanged) if the container is empty.
    pub fn pop(&mut self) -> (r: Option<T>)
        requires
            old(self).wf(),
        ensures
            final(self).wf(),
            old(self)@.len() > 0 ==> r == Some(old(self)@.last()) && final(self)@ == old(
                self,
            )@.drop_last(),
            old(self)@.len() == 0 ==> r is None && *final(self) == *old(self),
    {
        if self.is_empty() {
            None
        } else {
            let n = self.data.len();
            let r = self.remove(n - 1);
            proof {
                old(self)@.remove_ensures(n as int - 1);
                assert(final(self)@ =~= old(self)@.drop_last());
            }
            Some(r)
        }
    }

    /// Removal from the (unrotated) last subarray: a direct removal from the
    /// backing store, dropping the index-table entry if the subarray became
    /// empty.
    proof fn lemma_remove_last(&self, s1: Self, index: int)
        requires
            s1.wf(),
            s1.table().len() >= 1,
            s1.table()[s1.table().len() - 1] == 0,
            tri(s1.table().len() as int - 1) <= index < s1.backing().len(),
            sub_of(index) == s1.table().len() - 1,
            self.backing() == s1.backing().remove(index),
            self.table() == (if s1.backing().len() - 1 == tri(s1.table().len() as int - 1) {
                s1.table().subrange(0, s1.table().len() - 1)
            } else {
                s1.table()
            }),
        ensures
            self.wf(),
            self@ == s1@.remove(index),
    {
        let n = s1.backing().len() as int;
        let count0 = s1.table().len() as int;
        let l = count0 - 1;
        let target = s1@.remove(index);
        s1@.remove_ensures(index);
        s1.backing().remove_ensures(index);
        lemma_structure(n);
        lemma_tri_ge(l);
        assert(self.wf()) by {
            if n - 1 == tri(l) {
                if n - 1 >= 1 {
                    lemma_structure(n - 1);
                    lemma_tri_mono(l - 1, l);
                    lemma_sub_of_unique(n - 2, l - 1);
                }
            } else {
                lemma_sub_of_unique(n - 2, l);
            }
        }
        assert forall|i: int| 0 <= i < n - 1 implies self@[i] == target[i] by {
            if i < tri(l) {
                s1.lemma_phys(i);
                self.lemma_phys(i);
                let m = sub_of(i);
                lemma_tri_mono(m + 1, l);
                assert(self.phys(i) == s1.phys(i));
                assert(self.phys(i) < tri(l));
            } else {
                lemma_sub_of_unique(i, l);
                self.lemma_sub_elem(l, i - tri(l));
                assert(self.phys(i) == i);
                if i < index {
                    s1.lemma_sub_elem(l, i - tri(l));
                    assert(s1.phys(i) == i);
                } else {
                    s1.lemma_sub_elem(l, i + 1 - tri(l));
                    assert(s1.phys(i + 1) == i + 1);
                }
            }
        }
        assert(self@ =~= target);
    }

    /// Refills the gap left in subarray `k0`: each following full subarray
    /// moves its logical first element backward to fill its predecessor's
    /// gap, advancing its pivot; the last subarray's first element fills the
    /// final gap and the last subarray shrinks by one.
    fn cascade_remove(&mut self, k0: usize, g0: usize, Ghost(orig): Ghost<Self>, Ghost(
        index,
    ): Ghost<int>)
        requires
            orig.wf(),
            old(self).wf(),
            old(self).backing().len() == orig.backing().len(),
            old(self).table().len() == orig.table().len(),
            (k0 as int) < orig.table().len() - 1,
            tri(k0 as int) <= index < tri(k0 as int + 1),
            0 <= index < orig.backing().len(),
            orig.table()[orig.table().len() - 1] == 0,
            forall|m: int|
                k0 < m < orig.table().len() ==> old(self).table()[m] == orig.table()[m],
            forall|x: int|
                tri(k0 as int + 1) <= x < orig.backing().len() ==> old(self).backing()[x]
                    == orig.backing()[x],
            forall|i: int|
                0 <= i < tri(k0 as int + 1) - 1 ==> old(self)@[i] == orig@.remove(index)[i],
            g0 <= k0,
            old(self).phys(tri(k0 as int + 1) - 1) == tri(k0 as int) + g0,
        ensures
            final(self).wf(),
            final(self)@ == orig@.remove(index),
    {
        let ghost n = orig.backing().len() as int;
        let ghost count0 = orig.table().len() as int;
        let ghost target = orig@.remove(index);
        proof {
            vstd::std_specs::vec::axiom_spec_len(&self.data);
            lemma_structure(n);
            orig@.remove_ensures(index);
            assert(target.len() == n - 1);
            lemma_tri_mono(k0 as int + 1, count0 - 1);
        }
        let max_subarray_idx = self.start_indexes.len() - 1;
        let mut gap_off = g0;
        let mut cur = k0 + 1;
        while cur < max_subarray_idx
            invariant
                orig.wf(),
                self.wf(),
                n == orig.backing().len(),
                n == self.backing().len(),
                n <= usize::MAX,
                count0 == self.table().len(),
                count0 == orig.table().len(),
                k0 as int + 1 <= cur <= max_subarray_idx,
                max_subarray_idx == count0 - 1,
                0 <= index,
                index < tri(cur as int),
                orig.table()[count0 - 1] == 0,
                target == orig@.remove(index),
                target.len() == n - 1,
                forall|i: int| index <= i < n - 1 ==> target[i] == orig@[i + 1],
                forall|m: int| cur <= m < count0 ==> self.table()[m] == orig.table()[m],
                forall|x: int|
                    tri(cur as int) <= x < n ==> self.backing()[x] == orig.backing()[x],
                forall|i: int| 0 <= i < tri(cur as int) - 1 ==> self@[i] == target[i],
                gap_off as int <= cur as int - 1,
                self.phys(tri(cur as int) - 1) == tri(cur as int - 1) + gap_off,
            decreases max_subarray_idx - cur,
        {
            let ghost s_pre = *self;
            proof {
                lemma_structure(n);
                assert(sub_len(cur as int, n) == cur + 1);
                assert(tri(cur as int + 1) == tri(cur as int) + cur + 1);
                assert(tri(cur as int + 1) <= n) by {
                    lemma_tri_mono(cur as int + 1, count0 - 1);
                }
                lemma_tri_ge(cur as int - 1);
                assert(tri(cur as int - 1) + cur <= tri(cur as int) <= n);
            }
            let cur_subarray_offset = integer_sum(cur);
            let prev_subarray_offset = integer_sum(cur - 1);
            let p = self.start_indexes[cur];
            let prev_end_idx = prev_subarray_offset + gap_off;
            self.data[prev_end_idx] = self.data[cur_subarray_offset + p];
            let new_pivot: usize = if p == cur {
                0
            } else {
                p + 1
            };
            self.start_indexes[cur] = new_pivot;
            proof {
                self.lemma_cascade_remove_step(
                    s_pre,
                    orig,
                    cur as int,
                    index,
                    target,
                    gap_off as int,
                );
                lemma_tri_mono(cur as int + 1, count0 - 1);
            }
            gap_off = p;
            cur = cur + 1;
        }
        // the last subarray's logical first element fills the final gap, and
        // the last subarray shrinks by one
        let ghost s_last = *self;
        let max_subarray_offset = integer_sum(max_subarray_idx);
        proof {
            lemma_structure(n);
            lemma_tri_ge(max_subarray_idx as int - 1);
            assert(tri(max_subarray_idx as int - 1) + gap_off < tri(max_subarray_idx as int));
        }
        let prev_subarray_offset = integer_sum(max_subarray_idx - 1);
        let prev_end_idx = prev_subarray_offset + gap_off;
        self.data[prev_end_idx] = self.data[max_subarray_offset];
        let _removed = self.data.remove(max_subarray_offset);
        if max_subarray_offset == self.data.len() {
            self.start_indexes.pop();
        }
        proof {
            self.lemma_remove_finish(s_last, orig, index, gap_off as int);
        }
    }

    /// One refill step: subarray `c`'s logical first element moves backward
    /// into its predecessor's gap, and `c`'s pivot advances by one, leaving
    /// `c`'s own gap at the old pivot slot.
    proof fn lemma_cascade_remove_step(
        &self,
        s_pre: Self,
        orig: Self,
        c: int,
        index: int,
        target: Seq<T>,
        g: int,
    )
        requires
            orig.wf(),
            s_pre.wf(),
            s_pre.backing().len() == orig.backing().len(),
            self.backing().len() == orig.backing().len(),
            s_pre.table().len() == orig.table().len(),
            self.table().len() == orig.table().len(),
            orig.backing().len() <= usize::MAX,
            0 <= index < tri(c),
            c < orig.table().len() - 1,
            sub_len(c, orig.backing().len() as int) == c + 1,
            tri(c + 1) <= orig.backing().len(),
            target.len() == orig.backing().len() - 1,
            forall|i: int|
                index <= i < orig.backing().len() - 1 ==> target[i] == orig@[i + 1],
            forall|m: int| c <= m < orig.table().len() ==> s_pre.table()[m] == orig.table()[m],
            forall|x: int|
                tri(c) <= x < orig.backing().len() ==> s_pre.backing()[x] == orig.backing()[x],
            forall|i: int| 0 <= i < tri(c) - 1 ==> s_pre@[i] == target[i],
            0 <= g <= c - 1,
            s_pre.phys(tri(c) - 1) == tri(c - 1) + g,
            self.backing() == s_pre.backing().update(
                tri(c - 1) + g,
                s_pre.backing()[tri(c) + orig.table()[c] as int],
            ),
            self.table() == s_pre.table().update(
                c,
                (if orig.table()[c] as int == c {
                    0int
                } else {
                    orig.table()[c] + 1
                }) as usize,
            ),
        ensures
            self.wf(),
            forall|m: int| c + 1 <= m < orig.table().len() ==> self.table()[m] == orig.table()[m],
            forall|x: int|
                tri(c + 1) <= x < orig.backing().len() ==> self.backing()[x] == orig.backing()[x],
            forall|i: int| 0 <= i < tri(c + 1) - 1 ==> self@[i] == target[i],
            self.phys(tri(c + 1) - 1) == tri(c) + orig.table()[c],
    {
        let n = orig.backing().len() as int;
        let count0 = orig.table().len() as int;
        let p = orig.table()[c] as int;
        let w = tri(c - 1) + g;
        lemma_structure(n);
        lemma_tri_ge(c - 1);
        assert(tri(c) == tri(c - 1) + c);
        assert(tri(c + 1) == tri(c) + c + 1);
        assert(w < tri(c));
        let p2 = if p == c {
            0int
        } else {
            p + 1
        };
        assert(self.wf()) by {
            assert(c + 1 <= n <= usize::MAX);
            if count0 > 0 && n < tri(count0) {
                assert(c < count0 - 1);
            }
        }
        assert(self.table()[c] as int == p2);
        // the written value is subarray c's old logical first element
        orig.lemma_sub_elem(c, 0);
        assert(orig.phys(tri(c)) == tri(c) + p);
        assert(s_pre.backing()[tri(c) + p] == orig.backing()[tri(c) + p]);
        assert(s_pre.backing()[tri(c) + p] == orig@[tri(c)]);
        assert(s_pre.backing()[tri(c) + p] == target[tri(c) - 1]);
        // the new gap sits at subarray c's logical end
        self.lemma_sub_elem(c, c);
        assert(rot(p2, c, c + 1) == p);
        assert(self.phys(tri(c + 1) - 1) == tri(c) + p);
        assert forall|i: int| 0 <= i < tri(c + 1) - 1 implies self@[i] == target[i] by {
            if i < tri(c) - 1 {
                s_pre.lemma_phys(i);
                self.lemma_phys(i);
                let m = sub_of(i);
                assert(self.phys(i) == s_pre.phys(i));
                if m < c {
                    lemma_tri_mono(m + 1, c);
                } else {
                    lemma_tri_mono(c, m);
                }
                if s_pre.phys(i) == w {
                    s_pre.lemma_phys(tri(c) - 1);
                    s_pre.lemma_phys_inj(i, tri(c) - 1);
                    assert(false);
                }
                assert(self.backing()[s_pre.phys(i)] == s_pre.backing()[s_pre.phys(i)]);
            } else if i == tri(c) - 1 {
                s_pre.lemma_phys(i);
                self.lemma_phys(i);
                assert(self.phys(i) == s_pre.phys(i));
                assert(self.backing()[w] == target[tri(c) - 1]);
            } else {
                let j = i - tri(c);
                assert(0 <= p2 <= c);
                self.lemma_sub_elem(c, j);
                let q = rot(p2, j, c + 1);
                assert(self.phys(i) == tri(c) + q);
                assert(q == rot(p, j + 1, c + 1));
                assert(self.backing()[tri(c) + q] == orig.backing()[tri(c) + q]);
                orig.lemma_sub_elem(c, j + 1);
                assert(orig.phys(tri(c) + j + 1) == tri(c) + q);
                assert(self@[i] == orig@[i + 1]);
            }
        }
    }

    /// The final refill: the last subarray's logical first element fills the
    /// gap, the backing store drops the vacated slot, and the index-table
    /// entry is dropped when the last subarray becomes empty.
    proof fn lemma_remove_finish(&self, s_last: Self, orig: Self, index: int, g: int)
        requires
            orig.wf(),
            s_last.wf(),
            s_last.backing().len() == orig.backing().len(),
            s_last.table().len() == orig.table().len(),
            orig.table().len() >= 2,
            0 <= index < tri(orig.table().len() as int - 1),
            orig.table()[orig.table().len() - 1] == 0,
            forall|i: int|
                index <= i < orig.backing().len() - 1 ==> orig@.remove(index)[i] == orig@[i + 1],
            forall|m: int|
                orig.table().len() - 1 <= m < orig.table().len() ==> s_last.table()[m]
                    == orig.table()[m],
            forall|x: int|
                tri(orig.table().len() as int - 1) <= x < orig.backing().len()
                    ==> s_last.backing()[x] == orig.backing()[x],
            forall|i: int|
                0 <= i < tri(orig.table().len() as int - 1) - 1 ==> s_last@[i] == orig@.remove(
                    index,
                )[i],
            0 <= g <= orig.table().len() - 2,
            s_last.phys(tri(orig.table().len() as int - 1) - 1) == tri(
                orig.table().len() as int - 2,
            ) + g,
            self.backing() == s_last.backing().update(
                tri(orig.table().len() as int - 2) + g,
                s_last.backing()[tri(orig.table().len() as int - 1)],
            ).remove(tri(orig.table().len() as int - 1)),
            self.table() == (if orig.backing().len() - 1 == tri(orig.table().len() as int - 1) {
                s_last.table().subrange(0, s_last.table().len() - 1)
            } else {
                s_last.table()
            }),
        ensures
            self.wf(),
            self@ == orig@.remove(index),
    {
        let n = orig.backing().len() as int;
        let count0 = orig.table().len() as int;
        let l = count0 - 1;
        let w = tri(l - 1) + g;
        let target = orig@.remove(index);
        lemma_structure(n);
        assert(tri(l) < n);
        orig@.remove_ensures(index);
        lemma_tri_ge(l - 1);
        assert(tri(l) == tri(l - 1) + l);
        assert(w < tri(l));
        let mid = s_last.backing().update(w, s_last.backing()[tri(l)]);
        mid.remove_ensures(tri(l));
        assert(self.wf()) by {
            if n - 1 == tri(l) {
                lemma_structure(n - 1);
                lemma_tri_mono(l - 1, l);
                lemma_sub_of_unique(n - 2, l - 1);
            } else {
                lemma_structure(n - 1);
                lemma_sub_of_unique(n - 2, l);
            }
        }
        // the filled value is the last subarray's old logical first element
        orig.lemma_sub_elem(l, 0);
        assert(orig.phys(tri(l)) == tri(l));
        assert(s_last.backing()[tri(l)] == orig@[tri(l)]);
        assert(s_last.backing()[tri(l)] == target[tri(l) - 1]);
        assert forall|i: int| 0 <= i < n - 1 implies self@[i] == target[i] by {
            if i < tri(l) - 1 {
                s_last.lemma_phys(i);
                self.lemma_phys(i);
                let m = sub_of(i);
                if m < l {
                    lemma_tri_mono(m + 1, l);
                } else {
                    lemma_tri_mono(l, m);
                }
                assert(self.phys(i) == s_last.phys(i));
                if s_last.phys(i) == w {
                    s_last.lemma_phys(tri(l) - 1);
                    s_last.lemma_phys_inj(i, tri(l) - 1);
                    assert(false);
                }
                assert(self.backing()[s_last.phys(i)] == s_last.backing()[s_last.phys(i)]);
            } else if i == tri(l) - 1 {
                s_last.lemma_phys(i);
                self.lemma_phys(i);
                assert(self.phys(i) == s_last.phys(i));
                assert(self.phys(i) == w);
                assert(self.backing()[w] == mid[w]);
                assert(mid[w] == target[tri(l) - 1]);
            } else {
                lemma_sub_of_unique(i, l);
                self.lemma_sub_elem(l, i - tri(l));
                assert(self.table()[l] == 0 || self.table().len() == l);
                assert(self.phys(i) == i);
                assert(self.backing()[i] == mid[i + 1]);
                assert(mid[i + 1] == s_last.backing()[i + 1]);
                assert(s_last.backing()[i + 1] == orig.backing()[i + 1]);
                lemma_sub_of_unique(i + 1, l);
                orig.lemma_sub_elem(l, i + 1 - tri(l));
                assert(orig.phys(i + 1) == i + 1);
                assert(self@[i] == orig@[i + 1]);
            }
        }
        assert(self@ =~= target);
    }

    /// After the forward shift (pivot in `(0, removal point]`), the
    /// subarray's logical contents are the old ones with position `index`
    /// removed, and the old pivot slot is the gap at the logical end.
    proof fn lemma_rotate_remove_case_a(&self, orig: Self, k: int, index: int, ro: int)
        requires
            orig.wf(),
            0 <= k < orig.table().len(),
            sub_len(k, orig.backing().len() as int) == k + 1,
            tri(k) <= index < tri(k + 1),
            sub_of(index) == k,
            orig.backing().len() <= usize::MAX,
            1 <= orig.table()[k] as int <= ro <= k,
            ro == rot(orig.table()[k] as int, index - tri(k), k + 1),
            self.backing().len() == orig.backing().len(),
            self.table() == orig.table().update(
                k,
                (if orig.table()[k] as int == k {
                    0int
                } else {
                    orig.table()[k] + 1
                }) as usize,
            ),
            forall|x: int|
                0 <= x < self.backing().len() && !(tri(k) + orig.table()[k] < x <= tri(k) + ro)
                    ==> self.backing()[x] == orig.backing()[x],
            forall|x: int|
                tri(k) + orig.table()[k] < x <= tri(k) + ro ==> self.backing()[x]
                    == orig.backing()[x - 1],
        ensures
            self.wf(),
            forall|i: int| tri(k) <= i < index ==> self@[i] == orig@[i],
            forall|i: int| index <= i < tri(k + 1) - 1 ==> self@[i] == orig@[i + 1],
            self.phys(tri(k + 1) - 1) == tri(k) + orig.table()[k],
            forall|i: int|
                0 <= i < self@.len() && !(tri(k) <= i < tri(k + 1)) ==> self@[i] == orig@[i],
    {
        let n = orig.backing().len() as int;
        let p = orig.table()[k] as int;
        let s = tri(k);
        lemma_structure(n);
        lemma_tri_ge(k);
        assert(tri(k + 1) == s + k + 1);
        assert(k + 1 <= n <= usize::MAX);
        assert(self.wf()) by {
            if self.table().len() > 0 && (self.backing().len() as int) < tri(
                self.table().len() as int,
            ) {
                assert(k != orig.table().len() - 1) by {
                    if k == orig.table().len() - 1 {
                        assert(tri(k + 1) <= n);
                        assert(tri(orig.table().len() as int) <= n);
                    }
                }
            }
        }
        let p2 = if p == k {
            0int
        } else {
            p + 1
        };
        assert(self.table()[k] as int == p2);
        self.lemma_sub_elem(k, k);
        assert(rot(p2, k, k + 1) == p);
        assert(self.phys(tri(k + 1) - 1) == s + p);
        assert forall|i: int| tri(k) <= i < tri(k + 1) - 1 implies self@[i] == (if i < index {
            orig@[i]
        } else {
            orig@[i + 1]
        }) by {
            let j = i - s;
            self.lemma_sub_elem(k, j);
            let q = rot(p2, j, k + 1);
            assert(self.phys(i) == s + q);
            if i < index {
                orig.lemma_sub_elem(k, j);
                assert(q == rot(p, j, k + 1) + 1 || (rot(p, j, k + 1) == k && q == 0));
                assert(self.backing()[s + q] == orig.backing()[s + rot(p, j, k + 1)]);
            } else {
                orig.lemma_sub_elem(k, j + 1);
                assert(q == rot(p, j + 1, k + 1));
                assert(!(s + p < s + q <= s + ro));
                assert(self.backing()[s + q] == orig.backing()[s + q]);
            }
        }
        assert forall|i: int|
            0 <= i < self@.len() && !(tri(k) <= i < tri(k + 1)) implies self@[i] == orig@[i] by {
            self.lemma_phys(i);
            orig.lemma_phys(i);
            let m = sub_of(i);
            assert(m != k);
            if m < k {
                lemma_tri_mono(m + 1, k);
            } else {
                lemma_tri_mono(k + 1, m);
            }
            assert(self.phys(i) == orig.phys(i));
            assert(!(s <= orig.phys(i) < tri(k + 1)));
        }
    }

    /// After the backward shift (unrotated subarray, or removal point before
    /// the pivot), the subarray's logical contents are the old ones with
    /// position `index` removed, and the slot before the pivot is the gap at
    /// the logical end.
    proof fn lemma_rotate_remove_case_b(&self, orig: Self, k: int, index: int, ro: int)
        requires
            orig.wf(),
            0 <= k < orig.table().len(),
            sub_len(k, orig.backing().len() as int) == k + 1,
            tri(k) <= index < tri(k + 1),
            sub_of(index) == k,
            ro == rot(orig.table()[k] as int, index - tri(k), k + 1),
            orig.table()[k] == 0 || ro < orig.table()[k] as int,
            self.backing().len() == orig.backing().len(),
            self.table() == orig.table(),
            ({
                let eo = rot(orig.table()[k] as int, k, k + 1);
                &&& (forall|x: int|
                    0 <= x < self.backing().len() && !(tri(k) + ro <= x < tri(k) + eo)
                        ==> self.backing()[x] == orig.backing()[x])
                &&& (forall|x: int|
                    tri(k) + ro <= x < tri(k) + eo ==> self.backing()[x] == orig.backing()[x + 1])
            }),
        ensures
            self.wf(),
            forall|i: int| tri(k) <= i < index ==> self@[i] == orig@[i],
            forall|i: int| index <= i < tri(k + 1) - 1 ==> self@[i] == orig@[i + 1],
            self.phys(tri(k + 1) - 1) == tri(k) + rot(orig.table()[k] as int, k, k + 1),
            forall|i: int|
                0 <= i < self@.len() && !(tri(k) <= i < tri(k + 1)) ==> self@[i] == orig@[i],
    {
        let n = orig.backing().len() as int;
        let p = orig.table()[k] as int;
        let s = tri(k);
        let eo = rot(p, k, k + 1);
        lemma_structure(n);
        lemma_tri_ge(k);
        assert(tri(k + 1) == s + k + 1);
        assert(self.wf());
        self.lemma_sub_elem(k, k);
        assert(self.phys(tri(k + 1) - 1) == s + eo);
        assert forall|i: int| tri(k) <= i < tri(k + 1) - 1 implies self@[i] == (if i < index {
            orig@[i]
        } else {
            orig@[i + 1]
        }) by {
            let j = i - s;
            self.lemma_sub_elem(k, j);
            let q = rot(p, j, k + 1);
            assert(self.phys(i) == s + q);
            if i < index {
                orig.lemma_sub_elem(k, j);
                assert(!(s + ro <= s + q < s + eo)) by {
                    if p == 0 {
                        assert(q == j && ro == index - s && eo == k);
                    }
                }
                assert(self.backing()[s + q] == orig.backing()[s + q]);
            } else {
                orig.lemma_sub_elem(k, j + 1);
                assert(s + ro <= s + q < s + eo) by {
                    if p == 0 {
                        assert(q == j && ro == index - s && eo == k);
                    }
                }
                assert(self.backing()[s + q] == orig.backing()[s + q + 1]);
                assert(rot(p, j + 1, k + 1) == q + 1);
            }
        }
        assert forall|i: int|
            0 <= i < self@.len() && !(tri(k) <= i < tri(k + 1)) implies self@[i] == orig@[i] by {
            self.lemma_phys(i);
            orig.lemma_phys(i);
            let m = sub_of(i);
            assert(m != k);
            if m < k {
                lemma_tri_mono(m + 1, k);
            } else {
                lemma_tri_mono(k + 1, m);
            }
            assert(self.phys(i) == orig.phys(i));
            assert(!(s <= orig.phys(i) < tri(k + 1)));
        }
    }
}

} // verus!
