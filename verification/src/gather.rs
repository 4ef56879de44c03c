//! Sorting by a small digit: the buckets of a sequence laid out one behind the
//! other, and the positions that a counting scatter writes to.
use crate::order::{
    by_key, class, lemma_class_add, lemma_filter_add, lemma_filter_count, lemma_filter_empty,
    lemma_filter_filter, lemma_filter_index, lemma_filter_member, lemma_filter_none,
    lemma_filter_take, lemma_permutation_len, lemma_sorted_add, lemma_stable_permutation,
    permutation, sorted, stable_sort_of, tied_with,
};
use vstd::prelude::*;

verus! {

/// The predicate "has digit `b`".
pub open spec fn in_bucket<T>(d: spec_fn(T) -> int, b: int) -> spec_fn(T) -> bool {
    |x: T| d(x) == b
}

/// The elements of `s` with digit `b`, in order.
pub open spec fn bucket<T>(s: Seq<T>, d: spec_fn(T) -> int, b: int) -> Seq<T> {
    s.filter(in_bucket(d, b))
}

/// The buckets of the digits below `nb`, one behind the other.
pub open spec fn gathered<T>(s: Seq<T>, d: spec_fn(T) -> int, nb: nat) -> Seq<T>
    decreases nb,
{
    if nb == 0 {
        Seq::empty()
    } else {
        gathered(s, d, (nb - 1) as nat) + bucket(s, d, nb - 1)
    }
}

/// Where bucket `b` starts.
pub open spec fn start<T>(s: Seq<T>, d: spec_fn(T) -> int, b: nat) -> int {
    gathered(s, d, b).len() as int
}

/// Every element has a digit below `nb`.
pub open spec fn digits_below<T>(s: Seq<T>, d: spec_fn(T) -> int, nb: nat) -> bool {
    forall|i: int| 0 <= i < s.len() ==> 0 <= d(#[trigger] s[i]) < nb
}

pub proof fn lemma_start_step<T>(s: Seq<T>, d: spec_fn(T) -> int, b: nat)
    ensures
        start(s, d, b + 1) == start(s, d, b) + bucket(s, d, b as int).len(),
        start(s, d, 0) == 0,
{
}

pub proof fn lemma_start_monotone<T>(s: Seq<T>, d: spec_fn(T) -> int, b: nat, c: nat)
    requires
        b <= c,
    ensures
        start(s, d, b) <= start(s, d, c),
    decreases c - b,
{
    if b < c {
        lemma_start_monotone(s, d, b, (c - 1) as nat);
    }
}

/// Two buckets do not overlap.
pub proof fn lemma_start_disjoint<T>(s: Seq<T>, d: spec_fn(T) -> int, b: nat, c: nat)
    requires
        b < c,
    ensures
        start(s, d, b) + bucket(s, d, b as int).len() <= start(s, d, c),
{
    lemma_start_step(s, d, b);
    lemma_start_monotone(s, d, b + 1, c);
}

proof fn lemma_gathered_class<T>(s: Seq<T>, d: spec_fn(T) -> int, nb: nat, x: T)
    ensures
        class(by_key(d), gathered(s, d, nb), x) == if 0 <= d(x) < nb {
            class(by_key(d), s, x)
        } else {
            Seq::<T>::empty()
        },
    decreases nb,
{
    let le = by_key(d);
    let p = tied_with(le, x);
    if nb == 0 {
        lemma_filter_empty(p);
    } else {
        let b = nb - 1;
        lemma_gathered_class(s, d, b as nat, x);
        lemma_class_add(le, gathered(s, d, b as nat), bucket(s, d, b), x);
        let q = in_bucket(d, b);
        if d(x) == b {
            assert forall|y: T| #[trigger] p(y) == (q(y) && p(y)) by {}
            lemma_filter_filter(s, q, p, p);
            assert(class(le, gathered(s, d, nb), x) =~= class(le, s, x));
        } else {
            let f = bucket(s, d, b);
            assert forall|i: int| 0 <= i < f.len() implies !p(#[trigger] f[i]) by {
                let k = lemma_filter_member(s, q, i);
            }
            lemma_filter_none(f, p);
            assert(class(le, gathered(s, d, nb), x) =~= class(le, gathered(s, d, b as nat), x));
        }
    }
}

pub proof fn lemma_gathered_sorted<T>(s: Seq<T>, d: spec_fn(T) -> int, nb: nat)
    ensures
        sorted(by_key(d), gathered(s, d, nb)),
        digits_below(gathered(s, d, nb), d, nb),
    decreases nb,
{
    if nb > 0 {
        let b = nb - 1;
        let g = gathered(s, d, b as nat);
        let f = bucket(s, d, b);
        lemma_gathered_sorted(s, d, b as nat);
        assert forall|i: int| 0 <= i < f.len() implies d(#[trigger] f[i]) == b by {
            let k = lemma_filter_member(s, in_bucket(d, b), i);
        }
        assert(sorted(by_key(d), f));
        lemma_sorted_add(by_key(d), g, f);
    }
}

/// The buckets in order are the stable sort by digit.
pub proof fn lemma_gathered_sort<T>(s: Seq<T>, d: spec_fn(T) -> int, nb: nat)
    requires
        digits_below(s, d, nb),
    ensures
        stable_sort_of(by_key(d), s, gathered(s, d, nb)),
        gathered(s, d, nb).len() == s.len(),
{
    let le = by_key(d);
    let g = gathered(s, d, nb);
    lemma_gathered_sorted(s, d, nb);
    assert forall|x: T| #![trigger class(le, s, x)] class(le, s, x) == class(le, g, x) by {
        lemma_gathered_class(s, d, nb, x);
        if !(0 <= d(x) < nb) {
            lemma_filter_none(s, tied_with(le, x));
        }
    }
    lemma_stable_permutation(le, s, g);
}

/// What a scatter has written once the first `i` elements are placed.
pub open spec fn scattered<T>(s: Seq<T>, d: spec_fn(T) -> int, nb: nat, i: int, dst: Seq<T>) -> bool {
    forall|b: int, k: int|
        0 <= b < nb && 0 <= k < bucket(s.take(i), d, b).len() ==> dst[start(s, d, b as nat) + k] == #[trigger] bucket(s.take(i), d, b)[k]
}

/// The positions after the first `i` elements: each bucket's start plus what it
/// has got so far.
pub open spec fn positioned<T>(s: Seq<T>, d: spec_fn(T) -> int, nb: nat, i: int, pos: Seq<u32>) -> bool {
    &&& pos.len() >= nb
    &&& forall|b: int| 0 <= b < nb ==> (#[trigger] pos[b]) as int == start(s, d, b as nat) + bucket(s.take(i), d, b).len()
}

/// The part of a bucket that the first `i` elements fill is its front.
pub proof fn lemma_bucket_prefix<T>(s: Seq<T>, d: spec_fn(T) -> int, b: int, i: int)
    requires
        0 <= i <= s.len(),
    ensures
        bucket(s.take(i), d, b).len() <= bucket(s, d, b).len(),
        forall|k: int| 0 <= k < bucket(s.take(i), d, b).len() ==> bucket(s, d, b)[k] == #[trigger] bucket(s.take(i), d, b)[k],
{
    assert(s =~= s.take(i) + s.skip(i));
    lemma_filter_add(s.take(i), s.skip(i), in_bucket(d, b));
}

/// Where element `i` goes: inside the array, at its bucket's position.
pub proof fn lemma_slot<T>(s: Seq<T>, d: spec_fn(T) -> int, nb: nat, i: int)
    requires
        digits_below(s, d, nb),
        0 <= i < s.len(),
    ensures
        start(s, d, d(s[i]) as nat) + bucket(s.take(i), d, d(s[i])).len() < start(s, d, d(s[i]) as nat) + bucket(s, d, d(s[i])).len() <= s.len(),
{
    let b = d(s[i]);
    lemma_filter_index(s, in_bucket(d, b), i);
    lemma_start_step(s, d, b as nat);
    lemma_start_monotone(s, d, (b + 1) as nat, nb);
    lemma_gathered_sort(s, d, nb);
}

/// Placing element `i`.
pub proof fn lemma_scatter_step<T>(s: Seq<T>, d: spec_fn(T) -> int, nb: nat, i: int, dst: Seq<T>, pos: Seq<u32>, dst2: Seq<T>, pos2: Seq<u32>)
    requires
        digits_below(s, d, nb),
        0 <= i < s.len(),
        s.len() <= 0xFFFF_FFFF,
        dst.len() >= s.len(),
        scattered(s, d, nb, i, dst),
        positioned(s, d, nb, i, pos),
        dst2 == dst.update(pos[d(s[i])] as int, s[i]),
        pos2 == pos.update(d(s[i]), (pos[d(s[i])] + 1) as u32),
    ensures
        scattered(s, d, nb, i + 1, dst2),
        positioned(s, d, nb, i + 1, pos2),
{
    let v = d(s[i]);
    let at = pos[v] as int;
    lemma_slot(s, d, nb, i);
    assert(pos[v] as int == start(s, d, v as nat) + bucket(s.take(i), d, v).len());
    assert forall|b: int| 0 <= b < nb implies (#[trigger] pos2[b]) as int == start(s, d, b as nat) + bucket(s.take(i + 1), d, b).len() by {
        lemma_filter_take(s, i, in_bucket(d, b));
        assert(pos[b] as int == start(s, d, b as nat) + bucket(s.take(i), d, b).len());
    }
    assert forall|b: int, k: int| 0 <= b < nb && 0 <= k < bucket(s.take(i + 1), d, b).len() implies dst2[start(s, d, b as nat) + k] == #[trigger] bucket(s.take(i + 1), d, b)[k] by {
        lemma_filter_take(s, i, in_bucket(d, b));
        lemma_bucket_prefix(s, d, b, i);
        lemma_start_step(s, d, b as nat);
        lemma_start_monotone(s, d, (b + 1) as nat, nb);
        lemma_gathered_sort(s, d, nb);
        if b == v && k == bucket(s.take(i), d, b).len() {
        } else {
            assert(dst[start(s, d, b as nat) + k] == bucket(s.take(i), d, b)[k]);
            if b < v {
                lemma_start_disjoint(s, d, b as nat, v as nat);
            } else if b > v {
                lemma_start_disjoint(s, d, v as nat, b as nat);
            }
        }
    }
}

/// A finished scatter has laid out the buckets.
pub proof fn lemma_scatter_done<T>(s: Seq<T>, d: spec_fn(T) -> int, nb: nat, dst: Seq<T>)
    requires
        digits_below(s, d, nb),
        dst.len() >= s.len(),
        scattered(s, d, nb, s.len() as int, dst),
    ensures
        dst.take(s.len() as int) == gathered(s, d, nb),
{
    assert(s.take(s.len() as int) =~= s);
    lemma_gathered_sort(s, d, nb);
    lemma_scatter_prefix(s, d, nb, dst, nb);
}

proof fn lemma_scatter_prefix<T>(s: Seq<T>, d: spec_fn(T) -> int, nb: nat, dst: Seq<T>, b: nat)
    requires
        b <= nb,
        dst.len() >= start(s, d, nb),
        s.take(s.len() as int) == s,
        scattered(s, d, nb, s.len() as int, dst),
    ensures
        dst.take(start(s, d, b)) == gathered(s, d, b),
    decreases b,
{
    lemma_start_monotone(s, d, b, nb);
    if b > 0 {
        let c = (b - 1) as nat;
        lemma_scatter_prefix(s, d, nb, dst, c);
        lemma_start_step(s, d, c);
        let f = bucket(s, d, c as int);
        let g = gathered(s, d, c);
        assert forall|i: int| 0 <= i < start(s, d, b) implies dst[i] == #[trigger] (g + f)[i] by {
            if i < g.len() {
                assert(dst.take(start(s, d, c))[i] == g[i]);
            } else {
                assert(f[i - g.len()] == bucket(s.take(s.len() as int), d, c as int)[i - g.len()]);
            }
        }
        assert(dst.take(start(s, d, b)) =~= g + f);
    } else {
        assert(dst.take(0) =~= gathered(s, d, 0));
    }
}

/// The counts of the digits of the first `i` elements.
pub open spec fn counted<T>(s: Seq<T>, d: spec_fn(T) -> int, nb: nat, i: int, h: Seq<u32>) -> bool {
    &&& h.len() >= nb
    &&& forall|b: int| 0 <= b < nb ==> (#[trigger] h[b]) as int == bucket(s.take(i), d, b).len()
}

/// Counting element `i`.
pub proof fn lemma_count_step<T>(s: Seq<T>, d: spec_fn(T) -> int, nb: nat, i: int, h: Seq<u32>, h2: Seq<u32>)
    requires
        0 <= i < s.len(),
        s.len() <= 0xFFFF_FFFF,
        counted(s, d, nb, i, h),
        0 <= d(s[i]) < nb,
        h2 == h.update(d(s[i]), (h[d(s[i])] + 1) as u32),
    ensures
        counted(s, d, nb, i + 1, h2),
        h[d(s[i])] < 0xFFFF_FFFF,
{
    let v = d(s[i]);
    assert(h[v] as int == bucket(s.take(i), d, v).len());
    s.take(i).lemma_filter_len(in_bucket(d, v));
    assert forall|b: int| 0 <= b < nb implies (#[trigger] h2[b]) as int == bucket(s.take(i + 1), d, b).len() by {
        lemma_filter_take(s, i, in_bucket(d, b));
        assert(h[b] as int == bucket(s.take(i), d, b).len());
    }
}

pub proof fn lemma_count_start<T>(s: Seq<T>, d: spec_fn(T) -> int, nb: nat, h: Seq<u32>)
    requires
        h.len() >= nb,
        forall|b: int| 0 <= b < nb ==> h[b] == 0,
    ensures
        counted(s, d, nb, 0, h),
{
    assert forall|b: int| 0 <= b < nb implies (#[trigger] h[b]) as int == bucket(s.take(0), d, b).len() by {
        assert(s.take(0) =~= Seq::<T>::empty());
        lemma_filter_empty(in_bucket(d, b));
    }
}

/// Rearranging changes no count.
pub proof fn lemma_count_permutation<T>(a: Seq<T>, b: Seq<T>, d: spec_fn(T) -> int, nb: nat, h: Seq<u32>)
    requires
        permutation(a, b),
        counted(a, d, nb, a.len() as int, h),
    ensures
        counted(b, d, nb, b.len() as int, h),
{
    lemma_permutation_len(a, b);
    assert(a.take(a.len() as int) =~= a);
    assert(b.take(b.len() as int) =~= b);
    assert forall|v: int| 0 <= v < nb implies (#[trigger] h[v]) as int == bucket(b, d, v).len() by {
        lemma_filter_permutation(a, b, in_bucket(d, v));
    }
}

/// Filtering permutations of each other leaves such.
pub proof fn lemma_filter_permutation<T>(a: Seq<T>, b: Seq<T>, p: spec_fn(T) -> bool)
    requires
        permutation(a, b),
    ensures
        permutation(a.filter(p), b.filter(p)),
        a.filter(p).len() == b.filter(p).len(),
{
    assert forall|v: T| a.filter(p).to_multiset().count(v) == b.filter(p).to_multiset().count(v) by {
        lemma_filter_count(a, p, v);
        lemma_filter_count(b, p, v);
    }
    assert(a.filter(p).to_multiset() =~= b.filter(p).to_multiset());
    lemma_permutation_len(a.filter(p), b.filter(p));
}

/// The sum of the first `b` counts.
pub open spec fn sum_below(h: Seq<u32>, b: nat) -> nat
    decreases b,
{
    if b == 0 {
        0
    } else {
        sum_below(h, (b - 1) as nat) + h[b - 1] as nat
    }
}

/// The sums of the counts are the starts of the buckets.
pub proof fn lemma_sum_start<T>(s: Seq<T>, d: spec_fn(T) -> int, nb: nat, h: Seq<u32>, b: nat)
    requires
        counted(s, d, nb, s.len() as int, h),
        b <= nb,
    ensures
        sum_below(h, b) == start(s, d, b),
    decreases b,
{
    assert(s.take(s.len() as int) =~= s);
    if b > 0 {
        lemma_sum_start(s, d, nb, h, (b - 1) as nat);
        lemma_start_step(s, d, (b - 1) as nat);
        assert(h[b - 1] as int == bucket(s, d, b - 1).len());
    }
}

pub proof fn lemma_gathered_prefix<T>(s: Seq<T>, d: spec_fn(T) -> int, b: nat, nb: nat)
    requires
        b <= nb,
    ensures
        start(s, d, b) <= start(s, d, nb),
        gathered(s, d, nb).take(start(s, d, b)) == gathered(s, d, b),
    decreases nb,
{
    lemma_start_monotone(s, d, b, nb);
    if b < nb {
        let c = (nb - 1) as nat;
        lemma_gathered_prefix(s, d, b, c);
        assert(gathered(s, d, nb).take(start(s, d, b)) =~= gathered(s, d, c).take(start(s, d, b)));
    } else {
        assert(gathered(s, d, nb).take(start(s, d, b)) =~= gathered(s, d, b));
    }
}

/// What stands between two starts is the bucket.
pub proof fn lemma_gathered_bucket<T>(s: Seq<T>, d: spec_fn(T) -> int, b: nat, nb: nat)
    requires
        b < nb,
    ensures
        0 <= start(s, d, b) <= start(s, d, b + 1) <= gathered(s, d, nb).len(),
        gathered(s, d, nb).subrange(start(s, d, b), start(s, d, b + 1)) == bucket(s, d, b as int),
{
    lemma_start_step(s, d, b);
    lemma_gathered_prefix(s, d, b + 1, nb);
    lemma_gathered_prefix(s, d, b, nb);
    assert(gathered(s, d, nb).subrange(start(s, d, b), start(s, d, b + 1)) =~= gathered(s, d, b + 1).subrange(start(s, d, b), start(s, d, b + 1)));
    assert(gathered(s, d, b + 1).subrange(start(s, d, b), start(s, d, b + 1)) =~= bucket(s, d, b as int));
}

} // verus!
