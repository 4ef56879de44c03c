//! The permutation of the elements, once their keys are sorted.
use crate::compare::ints;
use crate::order::{iota, lemma_permutation_member, lemma_positions_distinct, permutation, picked};
use vstd::prelude::*;

verus! {

/// Exchanges two elements.
pub fn swap_at<T>(v: &mut [T], a: usize, b: usize)
    requires
        a < old(v)@.len(),
        b < old(v)@.len(),
    ensures
        final(v)@ == old(v)@.update(a as int, old(v)@[b as int]).update(b as int, old(v)@[a as int]),
{
    let ghost o = v@;
    if a < b {
        let (left, right) = v.split_at_mut(b);
        core::mem::swap(&mut left[a], &mut right[0]);
    } else if b < a {
        let (left, right) = v.split_at_mut(a);
        core::mem::swap(&mut left[b], &mut right[0]);
    }
    assert(v@ =~= o.update(a as int, o[b as int]).update(b as int, o[a as int]));
}

/// How many of the first `n` are not done.
spec fn undone(done: Seq<bool>, n: int) -> int
    decreases n,
{
    if n <= 0 {
        0
    } else {
        undone(done, n - 1) + if done[n - 1] {
            0int
        } else {
            1int
        }
    }
}

proof fn lemma_undone(done: Seq<bool>, n: int, p: int)
    requires
        0 <= n <= done.len(),
        0 <= p < done.len(),
        !done[p],
    ensures
        0 <= undone(done, n),
        undone(done.update(p, true), n) == undone(done, n) - if p < n {
            1int
        } else {
            0int
        },
    decreases n,
{
    if n > 0 {
        lemma_undone(done, n - 1, p);
    }
}

/// No two places take the same element, and every place takes one.
spec fn is_permutation(perm: Seq<u32>) -> bool {
    &&& forall|p: int| 0 <= p < perm.len() ==> (#[trigger] perm[p]) < perm.len()
    &&& forall|p: int, q: int| 0 <= p < perm.len() && 0 <= q < perm.len() && #[trigger] perm[p] == #[trigger] perm[q] ==> p == q
}

proof fn lemma_is_permutation(perm: Seq<u32>)
    requires
        permutation(iota(perm.len()), ints(perm)),
    ensures
        is_permutation(perm),
{
    let n = perm.len();
    assert forall|p: int| 0 <= p < n implies (#[trigger] perm[p]) < n by {
        let i = lemma_permutation_member(ints(perm), iota(n), p);
        assert(ints(perm)[p] == iota(n)[i]);
    }
    lemma_positions_distinct(n, ints(perm));
    assert forall|p: int, q: int| 0 <= p < n && 0 <= q < n && #[trigger] perm[p] == #[trigger] perm[q] implies p == q by {
        assert(ints(perm)[p] == ints(perm)[q]);
    }
}

/// How far the cycles were walked: a place that is done holds the element it
/// takes, any other its own; a place that is done, but for `start`, gave its
/// element to a place that is done.
spec fn walked<T>(orig: Seq<T>, perm: Seq<u32>, v: Seq<T>, idx: Seq<u32>, done: Seq<bool>, start: int, carry: int) -> bool {
    &&& v.len() == orig.len() == perm.len() == idx.len() == done.len()
    &&& forall|p: int| 0 <= p < v.len() && p != carry ==> #[trigger] v[p] == if done[p] {
        orig[perm[p] as int]
    } else {
        orig[p]
    }
    &&& forall|p: int| 0 <= p < v.len() ==> #[trigger] idx[p] == if done[p] {
        p as u32
    } else {
        perm[p]
    }
    &&& forall|p: int| 0 <= p < v.len() && #[trigger] done[p] && p != start ==> taken_from(perm, done, p)
}

/// A place that is done takes the element of `p`.
spec fn taken_from(perm: Seq<u32>, done: Seq<bool>, p: int) -> bool {
    exists|q: int| 0 <= q < perm.len() && done[q] && #[trigger] perm[q] == p
}

proof fn lemma_taken_from(perm: Seq<u32>, done: Seq<bool>, p: int, j: int)
    requires
        done.len() == perm.len(),
        0 <= j < done.len(),
    ensures
        taken_from(perm, done, p) ==> taken_from(perm, done.update(j, true), p),
        perm[j] == p ==> taken_from(perm, done.update(j, true), p),
{
    if taken_from(perm, done, p) {
        let q = choose|q: int| 0 <= q < perm.len() && done[q] && #[trigger] perm[q] == p;
        assert(done.update(j, true)[q]);
    }
    if perm[j] == p {
        assert(done.update(j, true)[j]);
    }
}

/// Applies the permutation that `idx` describes: the element at place `i` is
/// the one that was at place `idx[i]`. In place, following cycles; works for any
/// type. `idx` is spent.
pub fn permute_cycles<T>(v: &mut [T], idx: &mut [u32])
    requires
        old(v)@.len() == old(idx)@.len() <= 0xFFFF_FFFF,
        permutation(iota(old(v)@.len()), ints(old(idx)@)),
    ensures
        final(v)@ == picked(old(v)@, ints(old(idx)@)),
{
    let n: usize = v.len();
    let ghost orig = v@;
    let ghost perm = idx@;
    let ghost mut done: Seq<bool> = Seq::new(n as nat, |i: int| false);
    proof {
        lemma_is_permutation(perm);
    }
    let mut i: usize = 0;
    while i < n
        invariant
            i <= n == orig.len() == v@.len() == idx@.len(),
            n <= 0xFFFF_FFFF,
            is_permutation(perm),
            walked(orig, perm, v@, idx@, done, -1, -1),
            forall|p: int| 0 <= p < i ==> #[trigger] done[p],
        decreases n - i,
    {
        if idx[i] as usize != i {
            let mut j: usize = i;
            assert(!done[i as int]);
            while idx[j] as usize != i
                invariant
                    i < n == orig.len() == v@.len() == idx@.len(),
                    n <= 0xFFFF_FFFF,
                    j < n,
                    is_permutation(perm),
                    walked(orig, perm, v@, idx@, done, i as int, j as int),
                    !done[j as int],
                    v@[j as int] == orig[i as int],
                    j != i ==> taken_from(perm, done, j as int) && done[i as int],
                    forall|p: int| 0 <= p < i ==> #[trigger] done[p],
                decreases undone(done, n as int),
            {
                let k: usize = idx[j] as usize;
                proof {
                    assert(idx@[j as int] == perm[j as int]);
                    assert(perm[j as int] < n);
                    if done[k as int] {
                        let q = choose|q: int| 0 <= q < perm.len() && done[q] && #[trigger] perm[q] == k as int;
                        assert(taken_from(perm, done, k as int));
                        assert(perm[q] == perm[j as int]);
                    }
                    if k == j {
                        let q = choose|q: int| 0 <= q < perm.len() && done[q] && #[trigger] perm[q] == j as int;
                        assert(perm[q] == perm[j as int]);
                    }
                    lemma_undone(done, n as int, j as int);
                }
                let ghost before = v@;
                let ghost was = done;
                swap_at(v, j, k);
                idx[j] = j as u32;
                proof {
                    done = done.update(j as int, true);
                    assert(before[k as int] == orig[k as int]);
                    assert forall|p: int| 0 <= p < n && #[trigger] done[p] && p != i implies taken_from(perm, done, p) by {
                        lemma_taken_from(perm, was, p, j as int);
                        assert(p != j ==> was[p]);
                    }
                    lemma_taken_from(perm, was, k as int, j as int);
                    lemma_undone(done, n as int, k as int);
                }
                j = k;
            }
            proof {
                assert(idx@[j as int] == perm[j as int]);
                let was = done;
                done = done.update(j as int, true);
                assert forall|p: int| 0 <= p < n && #[trigger] done[p] && p != -1 implies taken_from(perm, done, p) by {
                    lemma_taken_from(perm, was, p, j as int);
                    assert(p != j ==> was[p]);
                }
            }
            idx[j] = j as u32;
        } else {
            proof {
                if !done[i as int] {
                    let was = done;
                    done = done.update(i as int, true);
                    assert(perm[i as int] == i);
                    assert forall|p: int| 0 <= p < n && #[trigger] done[p] && p != -1 implies taken_from(perm, done, p) by {
                        lemma_taken_from(perm, was, p, i as int);
                        assert(p != i ==> was[p]);
                    }
                }
            }
        }
        i += 1;
    }
    assert(v@ =~= picked(orig, ints(perm)));
}

} // verus!
