//! Laws relating the container's operations, stated over the logical
//! sequences that the operations' contracts use.

use vstd::prelude::*;

use crate::rvec::RotatedVec;
use crate::tri::num_subs;

verus! {

/// Dropping the last element `k` times.
pub open spec fn pop_n<T>(s: Seq<T>, k: int) -> Seq<T>
    decreases k,
{
    if k <= 0 {
        s
    } else {
        pop_n(s, k - 1).drop_last()
    }
}

/// Popping after pushes peels the pushed values off in order: `k` pops after
/// pushing `vs` onto `base` leave `base` plus the prefix of `vs` not yet
/// popped.
pub proof fn lemma_pop_n_of_pushed<T>(base: Seq<T>, vs: Seq<T>, k: int)
    requires
        0 <= k <= vs.len(),
    ensures
        pop_n(base + vs, k) == base + vs.take(vs.len() - k),
    decreases k,
{
    if k == 0 {
        assert(base + vs.take(vs.len() as int) =~= base + vs);
    } else {
        lemma_pop_n_of_pushed(base, vs, k - 1);
        assert((base + vs.take(vs.len() - k + 1)).drop_last() =~= base + vs.take(vs.len() - k));
    }
}

/// Pushing the values of `vs` one after another (each push appends to the
/// logical sequence) and then popping the same number of times returns the
/// pushed values in exact reverse order — the `i`-th pop yields
/// `vs[|vs| - 1 - i]` — and ends with the starting sequence: last-in,
/// first-out.
pub proof fn lemma_push_pop_lifo<T>(base: Seq<T>, vs: Seq<T>, i: int)
    requires
        0 <= i < vs.len(),
    ensures
        pop_n(base + vs, i).last() == vs[vs.len() - 1 - i],
        pop_n(base + vs, vs.len() as int) == base,
{
    lemma_pop_n_of_pushed(base, vs, i);
    lemma_pop_n_of_pushed(base, vs, vs.len() as int);
    assert(pop_n(base + vs, vs.len() as int) =~= base);
    assert((base + vs.take(vs.len() - i)).last() == vs[vs.len() - 1 - i]);
}

/// Inserting `v` at any valid position `i` and then removing at the same
/// position yields `v` back, restores the original length, and leaves every
/// other element in its original relative order.
pub proof fn lemma_insert_then_remove<T>(s: Seq<T>, i: int, v: T)
    requires
        0 <= i <= s.len(),
    ensures
        s.insert(i, v)[i] == v,
        s.insert(i, v).remove(i) == s,
{
    s.insert_ensures(i, v);
    s.insert(i, v).remove_ensures(i);
    assert(s.insert(i, v).remove(i) =~= s);
}

/// Converting a container to a plain vector and back yields a container
/// element-wise equal to the original: `into_vec` returns exactly the logical
/// sequence, and `from_vec` builds a container with exactly its argument's
/// sequence, so the round trip preserves every element.
pub proof fn lemma_round_trip<T>(c: &RotatedVec<T>, v: &Vec<T>, c2: &RotatedVec<T>)
    requires
        v@ == c@,
        c2@ == v@,
    ensures
        c2@ == c@,
        forall|i: int| 0 <= i < c@.len() ==> c2@[i] == c@[i],
{
}

/// Inserting at position `len` appends, exactly as a push does.
pub proof fn lemma_insert_at_len_is_push<T>(s: Seq<T>, v: T)
    ensures
        s.insert(s.len() as int, v) == s.push(v),
{
    s.insert_ensures(s.len() as int, v);
    assert(s.insert(s.len() as int, v) =~= s.push(v));
}

/// A well-formed empty container has an empty index table; in particular,
/// removing the sole remaining element leaves both empty.
pub proof fn lemma_empty_table<T>(c: &RotatedVec<T>)
    requires
        c.wf(),
        c@.len() == 0,
    ensures
        c.table().len() == 0,
{
    assert(c.table().len() == num_subs(0));
}

} // verus!
