//! Triangular numbers and the subarray index map.
//!
//! The backing store is partitioned into subarrays: subarray `k` occupies the
//! physical range `[tri(k), tri(k + 1))` and therefore has capacity `k + 1`.
//! `sub_of(i)` names the subarray that holds position `i`, and `sub_len(k, n)`
//! is the number of elements subarray `k` actually holds when the container
//! has `n` elements (every subarray is full except possibly the last).

use vstd::prelude::*;

verus! {

/// The k-th triangular number, `k * (k + 1) / 2`: the physical start of
/// subarray `k`.
pub open spec fn tri(k: int) -> int
    decreases k,
{
    if k <= 0 {
        0
    } else {
        tri(k - 1) + k
    }
}

/// The index of the subarray containing position `i`: the unique `k` with
/// `tri(k) <= i < tri(k + 1)`.
pub open spec fn sub_of(i: int) -> int
    decreases i,
{
    if i <= 0 {
        0
    } else {
        let k = sub_of(i - 1);
        if i < tri(k + 1) {
            k
        } else {
            k + 1
        }
    }
}

/// How many subarrays a container of `n` elements uses.
pub open spec fn num_subs(n: int) -> int {
    if n <= 0 {
        0
    } else {
        sub_of(n - 1) + 1
    }
}

/// The number of elements subarray `k` holds when the container holds `n`
/// elements: its full capacity `k + 1`, except for the last subarray, which
/// holds whatever remains.
pub open spec fn sub_len(k: int, n: int) -> int {
    if tri(k + 1) <= n {
        k + 1
    } else {
        n - tri(k)
    }
}

pub proof fn lemma_tri_mono(a: int, b: int)
    requires
        0 <= a <= b,
    ensures
        tri(a) <= tri(b),
        a < b ==> tri(a) + a + 1 <= tri(b),
    decreases b,
{
    if a < b {
        lemma_tri_mono(a, b - 1);
    }
}

pub proof fn lemma_tri_ge(k: int)
    requires
        0 <= k,
    ensures
        k <= tri(k),
    decreases k,
{
    if k > 0 {
        lemma_tri_ge(k - 1);
    }
}

pub proof fn lemma_sub_of_bounds(i: int)
    requires
        0 <= i,
    ensures
        0 <= sub_of(i),
        tri(sub_of(i)) <= i < tri(sub_of(i) + 1),
    decreases i,
{
    if i > 0 {
        lemma_sub_of_bounds(i - 1);
    }
}

/// The subarray ranges partition the address space, so the subarray index is
/// unique.
pub proof fn lemma_sub_of_unique(i: int, k: int)
    requires
        0 <= i,
        0 <= k,
        tri(k) <= i < tri(k + 1),
    ensures
        sub_of(i) == k,
{
    lemma_sub_of_bounds(i);
    let m = sub_of(i);
    if m < k {
        lemma_tri_mono(m + 1, k);
    }
    if k < m {
        lemma_tri_mono(k + 1, m);
    }
}

pub proof fn lemma_sub_of_le(i: int)
    requires
        0 <= i,
    ensures
        sub_of(i) <= i,
{
    lemma_sub_of_bounds(i);
    lemma_tri_ge(sub_of(i));
}

/// Twice a triangular number, in closed form.
pub proof fn lemma_tri_closed(k: int)
    requires
        0 <= k,
    ensures
        2 * tri(k) == k * (k + 1),
    decreases k,
{
    if k > 0 {
        lemma_tri_closed(k - 1);
        assert(tri(k) == tri(k - 1) + k);
        assert((k - 1) * k + 2 * k == k * (k + 1)) by (nonlinear_arith);
    } else {
        assert(tri(0) == 0);
    }
}

/// Facts relating a container length to its subarray structure: every
/// subarray before the last is full, and the last is non-empty.
pub proof fn lemma_structure(n: int)
    requires
        1 <= n,
    ensures
        1 <= num_subs(n) <= n,
        tri(num_subs(n) - 1) < n <= tri(num_subs(n)),
        forall|k: int|
            0 <= k < num_subs(n) - 1 ==> #[trigger] sub_len(k, n) == k + 1 && tri(k + 1) <= n,
        1 <= sub_len(num_subs(n) - 1, n) <= num_subs(n),
        tri(num_subs(n) - 1) + sub_len(num_subs(n) - 1, n) == n,
{
    let c = num_subs(n);
    lemma_sub_of_bounds(n - 1);
    lemma_sub_of_le(n - 1);
    assert forall|k: int| 0 <= k < c - 1 implies #[trigger] sub_len(k, n) == k + 1 && tri(k + 1)
        <= n by {
        lemma_tri_mono(k + 1, c - 1);
    }
    if tri(c) <= n - 1 {
        lemma_sub_of_unique(n - 1, c);
    }
}

/// Every position of a subarray in use belongs to that subarray.
pub proof fn lemma_sub_of_member(n: int, k: int, j: int)
    requires
        1 <= n,
        0 <= k < num_subs(n),
        0 <= j < sub_len(k, n),
    ensures
        sub_of(tri(k) + j) == k,
        0 <= tri(k),
        tri(k) + j < n,
{
    lemma_structure(n);
    lemma_tri_mono(0, k);
    if k < num_subs(n) - 1 {
        lemma_tri_mono(k + 1, num_subs(n) - 1);
    }
    assert(sub_len(k, n) <= k + 1);
    lemma_sub_of_unique(tri(k) + j, k);
}

/// Exact executable triangular number; callers must know the value fits.
pub(crate) fn integer_sum(k: usize) -> (t: usize)
    requires
        tri(k as int) <= usize::MAX,
    ensures
        t == tri(k as int),
{
    let mut t: usize = 0;
    let mut j: usize = 0;
    while j < k
        invariant
            0 <= j <= k,
            t == tri(j as int),
            tri(k as int) <= usize::MAX,
        decreases k - j,
    {
        proof {
            lemma_tri_mono(j as int + 1, k as int);
        }
        j = j + 1;
        t = t + j;
    }
    t
}

/// Executable inverse of the triangular number: the subarray index of
/// position `i`.
pub(crate) fn integer_sum_inverse(i: usize) -> (k: usize)
    ensures
        k == sub_of(i as int),
{
    let mut k: usize = 0;
    let mut t: u128 = 1;
    proof {
        assert(tri(0) == 0);
        assert(tri(1) == 1);
    }
    while t <= i as u128
        invariant
            0 <= k <= i,
            t == tri(k as int + 1),
            tri(k as int) <= i as int,
        decreases i - tri(k as int),
    {
        proof {
            lemma_tri_ge(k as int + 1);
        }
        k = k + 1;
        t = t + (k as u128) + 1;
    }
    proof {
        lemma_sub_of_unique(i as int, k as int);
    }
    k
}

} // verus!
