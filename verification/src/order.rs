//! Orders and stability: what it means that one sequence is the stable sort
//! of another, and the facts about sequences that the sorts rest on.
//!
//! An order is a relation `le` ("not after"). Two elements that stand in it
//! both ways are tied; the elements of a sequence that are tied with `x`, in
//! the order in which they stand, are the class of `x`. A rearrangement is
//! stable when it changes no class.
use vstd::prelude::*;

verus! {

/// `le` is reflexive, transitive and compares any two elements.
pub open spec fn total_preorder<T>(le: spec_fn(T, T) -> bool) -> bool {
    &&& forall|x: T, y: T| #[trigger] le(x, y) || le(y, x)
    &&& forall|x: T, y: T, z: T| #[trigger] le(x, y) && #[trigger] le(y, z) ==> le(x, z)
}

/// `x` and `y` are equal in the order.
pub open spec fn tied<T>(le: spec_fn(T, T) -> bool, x: T, y: T) -> bool {
    le(x, y) && le(y, x)
}

/// The predicate "is tied with `x`".
pub open spec fn tied_with<T>(le: spec_fn(T, T) -> bool, x: T) -> spec_fn(T) -> bool {
    |y: T| tied(le, x, y)
}

/// The elements of `s` that are tied with `x`, in order.
pub open spec fn class<T>(le: spec_fn(T, T) -> bool, s: Seq<T>, x: T) -> Seq<T> {
    s.filter(tied_with(le, x))
}

/// No element of `s` stands before one that is less.
pub open spec fn sorted<T>(le: spec_fn(T, T) -> bool, s: Seq<T>) -> bool {
    forall|i: int, j: int| 0 <= i <= j < s.len() ==> le(#[trigger] s[i], #[trigger] s[j])
}

/// Every class of `a` stands in `b` in the same order.
pub open spec fn stable<T>(le: spec_fn(T, T) -> bool, a: Seq<T>, b: Seq<T>) -> bool {
    forall|x: T|
        #![trigger class(le, a, x)]
        #![trigger class(le, b, x)]
        class(le, a, x) == class(le, b, x)
}

/// `b` holds the elements of `a`, each as often.
pub open spec fn permutation<T>(a: Seq<T>, b: Seq<T>) -> bool {
    a.to_multiset() == b.to_multiset()
}

/// `b` is the stable sort of `a`.
pub open spec fn stable_sort_of<T>(le: spec_fn(T, T) -> bool, a: Seq<T>, b: Seq<T>) -> bool {
    &&& sorted(le, b)
    &&& stable(le, a, b)
    &&& permutation(a, b)
}

/// The order by an integer key.
pub open spec fn by_key<T>(f: spec_fn(T) -> int) -> spec_fn(T, T) -> bool {
    |x: T, y: T| f(x) <= f(y)
}

/// The order by `first`, and by `second` where `first` ties.
pub open spec fn then_by<T>(first: spec_fn(T, T) -> bool, second: spec_fn(T, T) -> bool) -> spec_fn(T, T) -> bool {
    |x: T, y: T| first(x, y) && (first(y, x) ==> second(x, y))
}

pub proof fn lemma_by_key_total<T>(f: spec_fn(T) -> int)
    ensures
        total_preorder(by_key(f)),
{
}

pub proof fn lemma_then_by_total<T>(first: spec_fn(T, T) -> bool, second: spec_fn(T, T) -> bool)
    requires
        total_preorder(first),
        total_preorder(second),
    ensures
        total_preorder(then_by(first, second)),
{
    let le = then_by(first, second);
    assert forall|x: T, y: T| #[trigger] le(x, y) || le(y, x) by {
        assert(first(x, y) || first(y, x));
        assert(second(x, y) || second(y, x));
    }
    assert forall|x: T, y: T, z: T| #[trigger] le(x, y) && #[trigger] le(y, z) implies le(x, z) by {
        assert(first(x, y) && first(y, z));
        assert(first(x, z));
        if first(z, x) {
            assert(first(z, y)) by {
                assert(first(z, x) && first(x, y));
            }
            assert(first(y, x)) by {
                assert(first(y, z) && first(z, x));
            }
            assert(second(x, y) && second(y, z));
        }
    }
}

// ---- filters ---------------------------------------------------------------------------------

pub proof fn lemma_filter_push<T>(s: Seq<T>, x: T, p: spec_fn(T) -> bool)
    ensures
        s.push(x).filter(p) == if p(x) {
            s.filter(p).push(x)
        } else {
            s.filter(p)
        },
{
    s.lemma_filter_push(x, p);
}

/// Filtering a prefix and then its next element.
pub proof fn lemma_filter_take<T>(s: Seq<T>, i: int, p: spec_fn(T) -> bool)
    requires
        0 <= i < s.len(),
    ensures
        s.take(i + 1).filter(p) == if p(s[i]) {
            s.take(i).filter(p).push(s[i])
        } else {
            s.take(i).filter(p)
        },
{
    assert(s.take(i + 1) =~= s.take(i).push(s[i]));
    lemma_filter_push(s.take(i), s[i], p);
}

pub proof fn lemma_filter_empty<T>(p: spec_fn(T) -> bool)
    ensures
        Seq::<T>::empty().filter(p) == Seq::<T>::empty(),
{
    reveal(Seq::filter);
}

pub proof fn lemma_filter_add<T>(a: Seq<T>, b: Seq<T>, p: spec_fn(T) -> bool)
    ensures
        (a + b).filter(p) == a.filter(p) + b.filter(p),
{
    Seq::filter_distributes_over_add(a, b, p);
}

/// Where no element satisfies `p`, nothing is left.
pub proof fn lemma_filter_none<T>(s: Seq<T>, p: spec_fn(T) -> bool)
    requires
        forall|i: int| 0 <= i < s.len() ==> !p(#[trigger] s[i]),
    ensures
        s.filter(p) == Seq::<T>::empty(),
    decreases s.len(),
{
    reveal(Seq::filter);
    if s.len() > 0 {
        assert(!p(s[s.len() - 1]));
        assert forall|i: int| 0 <= i < s.drop_last().len() implies !p(#[trigger] s.drop_last()[i]) by {
            assert(s.drop_last()[i] == s[i]);
        }
        lemma_filter_none(s.drop_last(), p);
    } else {
        assert(s =~= Seq::<T>::empty());
    }
}

/// Where every element satisfies `p`, nothing is dropped.
pub proof fn lemma_filter_all<T>(s: Seq<T>, p: spec_fn(T) -> bool)
    requires
        forall|i: int| 0 <= i < s.len() ==> p(#[trigger] s[i]),
    ensures
        s.filter(p) == s,
    decreases s.len(),
{
    reveal(Seq::filter);
    if s.len() > 0 {
        assert forall|i: int| 0 <= i < s.drop_last().len() implies p(#[trigger] s.drop_last()[i]) by {
            assert(s.drop_last()[i] == s[i]);
        }
        lemma_filter_all(s.drop_last(), p);
        assert(p(s[s.len() - 1]));
        assert(s.drop_last().push(s.last()) =~= s);
    }
}

/// Two predicates that agree on the elements filter alike.
pub proof fn lemma_filter_agree<T>(s: Seq<T>, p: spec_fn(T) -> bool, q: spec_fn(T) -> bool)
    requires
        forall|i: int| 0 <= i < s.len() ==> p(#[trigger] s[i]) == q(s[i]),
    ensures
        s.filter(p) == s.filter(q),
    decreases s.len(),
{
    reveal(Seq::filter);
    if s.len() > 0 {
        assert(p(s[s.len() - 1]) == q(s[s.len() - 1]));
        assert forall|i: int| 0 <= i < s.drop_last().len() implies p(#[trigger] s.drop_last()[i]) == q(s.drop_last()[i]) by {
            assert(s.drop_last()[i] == s[i]);
        }
        lemma_filter_agree(s.drop_last(), p, q);
    }
}

/// Filtering twice is filtering once by both.
pub proof fn lemma_filter_filter<T>(s: Seq<T>, p: spec_fn(T) -> bool, q: spec_fn(T) -> bool, both: spec_fn(T) -> bool)
    requires
        forall|x: T| #[trigger] both(x) == (p(x) && q(x)),
    ensures
        s.filter(p).filter(q) == s.filter(both),
    decreases s.len(),
{
    reveal(Seq::filter);
    if s.len() > 0 {
        lemma_filter_filter(s.drop_last(), p, q, both);
        let x = s.last();
        assert(both(x) == (p(x) && q(x)));
        lemma_filter_push(s.drop_last().filter(p), x, q);
    }
}

/// Every element of a filtered sequence comes from the sequence and satisfies
/// the predicate.
pub proof fn lemma_filter_member<T>(s: Seq<T>, p: spec_fn(T) -> bool, k: int) -> (i: int)
    requires
        0 <= k < s.filter(p).len(),
    ensures
        0 <= i < s.len(),
        s[i] == s.filter(p)[k],
        p(s[i]),
        s.take(i).filter(p).len() == k,
    decreases s.len(),
{
    reveal(Seq::filter);
    let t = s.drop_last();
    if p(s.last()) && k == t.filter(p).len() {
        assert(s.take(s.len() - 1) =~= t);
        s.len() - 1
    } else {
        let i = lemma_filter_member(t, p, k);
        assert(t.take(i) =~= s.take(i));
        i
    }
}

/// The element at `i` stands in the filtered sequence behind those before it
/// that also satisfy the predicate.
pub proof fn lemma_filter_index<T>(s: Seq<T>, p: spec_fn(T) -> bool, i: int)
    requires
        0 <= i < s.len(),
        p(s[i]),
    ensures
        s.take(i).filter(p).len() < s.filter(p).len(),
        s.filter(p)[s.take(i).filter(p).len() as int] == s[i],
{
    lemma_filter_take(s, i, p);
    assert(s =~= s.take(i + 1) + s.skip(i + 1));
    lemma_filter_add(s.take(i + 1), s.skip(i + 1), p);
}

/// Of two elements that satisfy the predicate, the earlier stays earlier.
pub proof fn lemma_filter_index_lt<T>(s: Seq<T>, p: spec_fn(T) -> bool, i: int, j: int)
    requires
        0 <= i < j <= s.len(),
        p(s[i]),
    ensures
        s.take(i).filter(p).len() < s.take(j).filter(p).len(),
{
    lemma_filter_take(s, i, p);
    assert(s.take(j) =~= s.take(i + 1) + s.subrange(i + 1, j));
    lemma_filter_add(s.take(i + 1), s.subrange(i + 1, j), p);
}

pub proof fn lemma_filter_count<T>(s: Seq<T>, p: spec_fn(T) -> bool, v: T)
    ensures
        s.filter(p).to_multiset().count(v) == if p(v) {
            s.to_multiset().count(v)
        } else {
            0
        },
    decreases s.len(),
{
    broadcast use vstd::seq_lib::group_to_multiset_ensures;

    reveal(Seq::filter);
    if s.len() > 0 {
        lemma_filter_count(s.drop_last(), p, v);
        assert(s.drop_last().push(s.last()) =~= s);
    }
}

// ---- permutations ------------------------------------------------------------------------------

pub proof fn lemma_permutation_len<T>(a: Seq<T>, b: Seq<T>)
    requires
        permutation(a, b),
    ensures
        a.len() == b.len(),
{
    a.to_multiset_ensures();
    b.to_multiset_ensures();
}

pub proof fn lemma_permutation_add<T>(a: Seq<T>, b: Seq<T>, c: Seq<T>, d: Seq<T>)
    requires
        permutation(a, c),
        permutation(b, d),
    ensures
        permutation(a + b, c + d),
{
    vstd::seq_lib::lemma_multiset_commutative(a, b);
    vstd::seq_lib::lemma_multiset_commutative(c, d);
}

/// The order of two parts does not matter to what they hold.
pub proof fn lemma_permutation_swap<T>(a: Seq<T>, b: Seq<T>)
    ensures
        permutation(a + b, b + a),
{
    vstd::seq_lib::lemma_multiset_commutative(a, b);
    vstd::seq_lib::lemma_multiset_commutative(b, a);
    assert((a + b).to_multiset() =~= (b + a).to_multiset());
}

/// What both sides end with may be dropped.
pub proof fn lemma_permutation_cancel<T>(a: Seq<T>, b: Seq<T>, v: T)
    requires
        permutation(a.push(v), b.push(v)),
    ensures
        permutation(a, b),
{
    broadcast use vstd::seq_lib::group_to_multiset_ensures;

    assert(a.to_multiset() =~= a.push(v).to_multiset().remove(v));
    assert(b.to_multiset() =~= b.push(v).to_multiset().remove(v));
}

/// An element of one side stands on the other side too.
pub proof fn lemma_permutation_member<T>(a: Seq<T>, b: Seq<T>, i: int) -> (j: int)
    requires
        permutation(a, b),
        0 <= i < a.len(),
    ensures
        0 <= j < b.len(),
        b[j] == a[i],
{
    broadcast use vstd::seq_lib::group_to_multiset_ensures;

    assert(a.contains(a[i]));
    assert(a.to_multiset().count(a[i]) > 0);
    assert(b.contains(a[i]));
    choose|j: int| 0 <= j < b.len() && b[j] == a[i]
}

// ---- stability -----------------------------------------------------------------------------------

/// A stable rearrangement is a permutation.
pub proof fn lemma_stable_permutation<T>(le: spec_fn(T, T) -> bool, a: Seq<T>, b: Seq<T>)
    requires
        total_preorder(le),
        stable(le, a, b),
    ensures
        permutation(a, b),
        a.len() == b.len(),
{
    assert forall|v: T| a.to_multiset().count(v) == b.to_multiset().count(v) by {
        lemma_filter_count(a, tied_with(le, v), v);
        lemma_filter_count(b, tied_with(le, v), v);
        assert(le(v, v));
        assert(class(le, a, v) == class(le, b, v));
    }
    assert(a.to_multiset() =~= b.to_multiset());
    lemma_permutation_len(a, b);
}

pub proof fn lemma_class_add<T>(le: spec_fn(T, T) -> bool, a: Seq<T>, b: Seq<T>, x: T)
    ensures
        class(le, a + b, x) == class(le, a, x) + class(le, b, x),
{
    lemma_filter_add(a, b, tied_with(le, x));
}

pub proof fn lemma_class_push<T>(le: spec_fn(T, T) -> bool, a: Seq<T>, y: T, x: T)
    ensures
        class(le, a.push(y), x) == if tied(le, x, y) {
            class(le, a, x).push(y)
        } else {
            class(le, a, x)
        },
{
    lemma_filter_push(a, y, tied_with(le, x));
}

/// Rearranging two parts stably rearranges the whole stably.
pub proof fn lemma_stable_add<T>(le: spec_fn(T, T) -> bool, a: Seq<T>, b: Seq<T>, c: Seq<T>, d: Seq<T>)
    requires
        stable(le, a, c),
        stable(le, b, d),
    ensures
        stable(le, a + b, c + d),
{
    assert forall|x: T| #![trigger class(le, a + b, x)] class(le, a + b, x) == class(le, c + d, x) by {
        lemma_class_add(le, a, b, x);
        lemma_class_add(le, c, d, x);
        assert(class(le, a, x) == class(le, c, x));
        assert(class(le, b, x) == class(le, d, x));
    }
}

/// It is enough to look at the classes of the elements themselves.
pub proof fn lemma_stable_from_members<T>(le: spec_fn(T, T) -> bool, a: Seq<T>, b: Seq<T>)
    requires
        total_preorder(le),
        permutation(a, b),
        forall|i: int| 0 <= i < a.len() ==> class(le, a, #[trigger] a[i]) == class(le, b, a[i]),
    ensures
        stable(le, a, b),
{
    assert forall|x: T| #![trigger class(le, a, x)] class(le, a, x) == class(le, b, x) by {
        if exists|i: int| 0 <= i < a.len() && tied(le, x, #[trigger] a[i]) {
            let i = choose|i: int| 0 <= i < a.len() && tied(le, x, #[trigger] a[i]);
            lemma_class_tied(le, a, x, a[i]);
            lemma_class_tied(le, b, x, a[i]);
        } else {
            lemma_filter_none(a, tied_with(le, x));
            assert forall|j: int| 0 <= j < b.len() implies !tied_with(le, x)(#[trigger] b[j]) by {
                let i = lemma_permutation_member(b, a, j);
                assert(!tied(le, x, a[i]));
            }
            lemma_filter_none(b, tied_with(le, x));
        }
    }
}

/// Tied elements have the same class.
pub proof fn lemma_class_tied<T>(le: spec_fn(T, T) -> bool, s: Seq<T>, x: T, y: T)
    requires
        total_preorder(le),
        tied(le, x, y),
    ensures
        class(le, s, x) == class(le, s, y),
{
    assert forall|i: int| 0 <= i < s.len() implies tied_with(le, x)(#[trigger] s[i]) == tied_with(le, y)(s[i]) by {
        let z = s[i];
        assert(le(x, y) && le(y, x));
        assert(le(x, z) || le(z, x));
        assert(le(y, z) || le(z, y));
    }
    lemma_filter_agree(s, tied_with(le, x), tied_with(le, y));
}

/// Two orders that agree on the elements see the same stable rearrangements
/// and the same sorted sequences.
pub proof fn lemma_orders_agree<T>(le: spec_fn(T, T) -> bool, other: spec_fn(T, T) -> bool, a: Seq<T>, b: Seq<T>)
    requires
        total_preorder(le),
        total_preorder(other),
        permutation(a, b),
        forall|i: int, j: int| 0 <= i < a.len() && 0 <= j < a.len() ==> le(#[trigger] a[i], #[trigger] a[j]) == other(a[i], a[j]),
        stable(le, a, b),
    ensures
        stable(other, a, b),
        sorted(le, b) ==> sorted(other, b),
{
    lemma_permutation_len(a, b);
    assert forall|i: int| 0 <= i < a.len() implies class(other, a, #[trigger] a[i]) == class(other, b, a[i]) by {
        let x = a[i];
        assert forall|j: int| 0 <= j < a.len() implies tied_with(le, x)(#[trigger] a[j]) == tied_with(other, x)(a[j]) by {
            assert(le(a[i], a[j]) == other(a[i], a[j]));
            assert(le(a[j], a[i]) == other(a[j], a[i]));
        }
        lemma_filter_agree(a, tied_with(le, x), tied_with(other, x));
        assert forall|j: int| 0 <= j < b.len() implies tied_with(le, x)(#[trigger] b[j]) == tied_with(other, x)(b[j]) by {
            let k = lemma_permutation_member(b, a, j);
            assert(le(a[i], a[k]) == other(a[i], a[k]));
            assert(le(a[k], a[i]) == other(a[k], a[i]));
        }
        lemma_filter_agree(b, tied_with(le, x), tied_with(other, x));
        assert(class(le, a, x) == class(le, b, x));
    }
    lemma_stable_from_members(other, a, b);
    if sorted(le, b) {
        assert forall|i: int, j: int| 0 <= i <= j < b.len() implies other(#[trigger] b[i], #[trigger] b[j]) by {
            let k = lemma_permutation_member(b, a, i);
            let l = lemma_permutation_member(b, a, j);
            assert(le(a[k], a[l]) == other(a[k], a[l]));
        }
    }
}

pub proof fn lemma_stable_trans<T>(le: spec_fn(T, T) -> bool, a: Seq<T>, b: Seq<T>, c: Seq<T>)
    requires
        stable(le, a, b),
        stable(le, b, c),
    ensures
        stable(le, a, c),
{
    assert forall|x: T| #![trigger class(le, a, x)] class(le, a, x) == class(le, c, x) by {
        assert(class(le, a, x) == class(le, b, x));
        assert(class(le, b, x) == class(le, c, x));
    }
}

pub proof fn lemma_class_last<T>(le: spec_fn(T, T) -> bool, s: Seq<T>, x: T)
    requires
        s.len() > 0,
    ensures
        class(le, s, x) == if tied(le, x, s.last()) {
            class(le, s.drop_last(), x).push(s.last())
        } else {
            class(le, s.drop_last(), x)
        },
{
    assert(s =~= s.drop_last().push(s.last()));
    lemma_class_push(le, s.drop_last(), s.last(), x);
}

/// Law: a sequence has one stable sort.
pub proof fn stable_sort_is_unique<T>(le: spec_fn(T, T) -> bool, a: Seq<T>, b: Seq<T>, c: Seq<T>)
    requires
        total_preorder(le),
        stable_sort_of(le, a, b),
        stable_sort_of(le, a, c),
    ensures
        b == c,
{
    assert forall|x: T| #![trigger class(le, b, x)] class(le, b, x) == class(le, c, x) by {
        assert(class(le, a, x) == class(le, b, x));
        assert(class(le, a, x) == class(le, c, x));
    }
    lemma_sorted_unique(le, b, c);
}

/// The stable sort of `s`.
pub open spec fn stably<T>(le: spec_fn(T, T) -> bool, s: Seq<T>) -> Seq<T> {
    choose|b: Seq<T>| #[trigger] stable_sort_of(le, s, b)
}

pub proof fn lemma_stably<T>(le: spec_fn(T, T) -> bool, s: Seq<T>, b: Seq<T>)
    requires
        total_preorder(le),
        stable_sort_of(le, s, b),
    ensures
        stably(le, s) == b,
{
    stable_sort_is_unique(le, s, stably(le, s), b);
}

proof fn lemma_sorted_unique<T>(le: spec_fn(T, T) -> bool, b: Seq<T>, c: Seq<T>)
    requires
        total_preorder(le),
        sorted(le, b),
        sorted(le, c),
        stable(le, b, c),
    ensures
        b == c,
    decreases b.len(),
{
    lemma_stable_permutation(le, b, c);
    if b.len() == 0 {
        assert(b =~= c);
    } else {
        let n = b.len() as int;
        let x = b[n - 1];
        let y = c[n - 1];
        let i = lemma_permutation_member(c, b, n - 1);
        let j = lemma_permutation_member(b, c, n - 1);
        assert(le(b[i], b[n - 1]));
        assert(le(c[j], c[n - 1]));
        assert(tied(le, x, y));
        assert(le(x, x));
        lemma_class_last(le, b, x);
        lemma_class_last(le, c, x);
        assert(class(le, b, x) == class(le, c, x));
        assert(class(le, b, x).last() == x);
        assert(class(le, c, x).last() == y);
        assert forall|z: T| #![trigger class(le, b.drop_last(), z)] class(le, b.drop_last(), z) == class(le, c.drop_last(), z) by {
            lemma_class_last(le, b, z);
            lemma_class_last(le, c, z);
            assert(class(le, b, z) == class(le, c, z));
            if tied(le, z, x) {
                assert(class(le, b.drop_last(), z) =~= class(le, b, z).drop_last());
                assert(class(le, c.drop_last(), z) =~= class(le, c, z).drop_last());
            }
        }
        assert(sorted(le, b.drop_last()));
        assert(sorted(le, c.drop_last()));
        lemma_sorted_unique(le, b.drop_last(), c.drop_last());
        assert(b =~= b.drop_last().push(x));
        assert(c =~= c.drop_last().push(y));
    }
}

/// Law: sorting what is sorted changes nothing.
pub proof fn sorted_is_its_own_stable_sort<T>(le: spec_fn(T, T) -> bool, a: Seq<T>, b: Seq<T>)
    requires
        total_preorder(le),
        sorted(le, a),
        stable_sort_of(le, a, b),
    ensures
        b == a,
{
    lemma_sorted_unique(le, a, b);
}

/// Filtering keeps what is sorted sorted.
pub proof fn lemma_filter_sorted<T>(le: spec_fn(T, T) -> bool, s: Seq<T>, p: spec_fn(T) -> bool)
    requires
        sorted(le, s),
    ensures
        sorted(le, s.filter(p)),
{
    let f = s.filter(p);
    assert forall|k: int, l: int| 0 <= k <= l < f.len() implies le(#[trigger] f[k], #[trigger] f[l]) by {
        let i = lemma_filter_member(s, p, k);
        let j = lemma_filter_member(s, p, l);
        if i > j {
            lemma_filter_index_lt(s, p, j, i);
        }
        assert(le(s[i], s[j]));
    }
}

/// Sorting by `first` what is sorted by `second` sorts by `first` and then by
/// `second`: the step on which least-significant-digit passes rest.
pub proof fn lemma_stable_sort_then<T>(
    first: spec_fn(T, T) -> bool,
    second: spec_fn(T, T) -> bool,
    a: Seq<T>,
    b: Seq<T>,
    c: Seq<T>,
)
    requires
        total_preorder(first),
        total_preorder(second),
        stable_sort_of(second, a, b),
        stable_sort_of(first, b, c),
    ensures
        stable_sort_of(then_by(first, second), a, c),
{
    let le = then_by(first, second);
    lemma_permutation_len(a, b);
    lemma_permutation_len(b, c);
    assert forall|i: int, j: int| 0 <= i <= j < c.len() implies le(#[trigger] c[i], #[trigger] c[j]) by {
        assert(first(c[i], c[j]));
        if first(c[j], c[i]) {
            let x = c[i];
            let p = tied_with(first, x);
            assert(first(x, x));
            lemma_filter_index(c, p, i);
            lemma_filter_index(c, p, j);
            if i < j {
                lemma_filter_index_lt(c, p, i, j);
            }
            assert(class(first, b, x) == class(first, c, x));
            lemma_filter_sorted(second, b, p);
            let k = c.take(i).filter(p).len() as int;
            let l = c.take(j).filter(p).len() as int;
            assert(second(b.filter(p)[k], b.filter(p)[l]));
        }
    }
    assert forall|x: T| #![trigger class(le, a, x)] class(le, a, x) == class(le, c, x) by {
        let p = tied_with(first, x);
        let q = tied_with(second, x);
        let both = tied_with(le, x);
        assert forall|y: T| #[trigger] both(y) == (p(y) && q(y)) by {}
        assert forall|y: T| #[trigger] both(y) == (q(y) && p(y)) by {}
        lemma_filter_filter(c, p, q, both);
        lemma_filter_filter(b, p, q, both);
        lemma_filter_filter(b, q, p, both);
        lemma_filter_filter(a, q, p, both);
        assert(class(first, b, x) == class(first, c, x));
        assert(class(second, a, x) == class(second, b, x));
    }
}

/// No element of `a` is tied with one of `b`.
pub open spec fn untied<T>(le: spec_fn(T, T) -> bool, a: Seq<T>, b: Seq<T>) -> bool {
    forall|i: int, j: int| 0 <= i < a.len() && 0 <= j < b.len() ==> !tied(le, #[trigger] a[i], #[trigger] b[j])
}

/// Parts without ties between them may change places.
pub proof fn lemma_stable_swap<T>(le: spec_fn(T, T) -> bool, a: Seq<T>, b: Seq<T>)
    requires
        total_preorder(le),
        untied(le, a, b),
    ensures
        stable(le, a + b, b + a),
{
    assert forall|x: T| #![trigger class(le, a + b, x)] class(le, a + b, x) == class(le, b + a, x) by {
        lemma_class_add(le, a, b, x);
        lemma_class_add(le, b, a, x);
        if exists|i: int| 0 <= i < a.len() && tied(le, x, #[trigger] a[i]) {
            let i = choose|i: int| 0 <= i < a.len() && tied(le, x, #[trigger] a[i]);
            assert forall|j: int| 0 <= j < b.len() implies !tied_with(le, x)(#[trigger] b[j]) by {
                if tied(le, x, b[j]) {
                    assert(le(a[i], x) && le(x, b[j]));
                    assert(le(b[j], x) && le(x, a[i]));
                    assert(tied(le, a[i], b[j]));
                }
            }
            lemma_filter_none(b, tied_with(le, x));
            assert(class(le, a, x) + class(le, b, x) =~= class(le, b, x) + class(le, a, x));
        } else {
            lemma_filter_none(a, tied_with(le, x));
            assert(class(le, a, x) + class(le, b, x) =~= class(le, b, x) + class(le, a, x));
        }
    }
}

pub proof fn lemma_sorted_add<T>(le: spec_fn(T, T) -> bool, a: Seq<T>, b: Seq<T>)
    requires
        sorted(le, a),
        sorted(le, b),
        forall|i: int, j: int| 0 <= i < a.len() && 0 <= j < b.len() ==> le(#[trigger] a[i], #[trigger] b[j]),
    ensures
        sorted(le, a + b),
{
    let s = a + b;
    assert forall|i: int, j: int| 0 <= i <= j < s.len() implies le(#[trigger] s[i], #[trigger] s[j]) by {
        if j < a.len() {
            assert(le(a[i], a[j]));
        } else if i >= a.len() {
            assert(le(b[i - a.len()], b[j - a.len()]));
        } else {
            assert(le(a[i], b[j - a.len()]));
        }
    }
}

/// Inserting `v` into a sorted sequence before the elements that are greater.
pub proof fn lemma_insert<T>(le: spec_fn(T, T) -> bool, p: Seq<T>, v: T, j: int)
    requires
        total_preorder(le),
        sorted(le, p),
        0 <= j <= p.len(),
        forall|i: int| 0 <= i < j ==> le(#[trigger] p[i], v),
        forall|i: int| j <= i < p.len() ==> !le(#[trigger] p[i], v),
    ensures
        stable_sort_of(le, p.push(v), p.take(j).push(v) + p.skip(j)),
{
    let l = p.take(j);
    let r = p.skip(j);
    let one = seq![v];
    assert(untied(le, r, one));
    lemma_stable_swap(le, r, one);
    assert forall|x: T| #![trigger class(le, l, x)] class(le, l, x) == class(le, l, x) by {}
    lemma_stable_add(le, l, r + one, l, one + r);
    assert(l + (r + one) =~= p.push(v));
    assert(l + (one + r) =~= l.push(v) + r);
    lemma_stable_permutation(le, p.push(v), l.push(v) + r);
    assert forall|i: int| 0 <= i < l.len() implies le(#[trigger] l[i], v) by {
        assert(l[i] == p[i]);
    }
    assert(le(v, v));
    assert(sorted(le, l.push(v)));
    assert forall|i: int, k: int| 0 <= i < l.push(v).len() && 0 <= k < r.len() implies le(#[trigger] l.push(v)[i], #[trigger] r[k]) by {
        assert(r[k] == p[k + j]);
        if i < j {
            assert(le(p[i], p[k + j]));
        } else {
            assert(!le(p[k + j], v));
        }
    }
    assert(sorted(le, r));
    lemma_sorted_add(le, l.push(v), r);
}

// ---- merging -----------------------------------------------------------------------------------

/// The merge of two sequences from the front; on a tie the left goes first.
pub open spec fn merged<T>(le: spec_fn(T, T) -> bool, x: Seq<T>, y: Seq<T>) -> Seq<T>
    decreases x.len() + y.len(),
{
    if x.len() == 0 {
        y
    } else if y.len() == 0 {
        x
    } else if le(x[0], y[0]) {
        seq![x[0]] + merged(le, x.skip(1), y)
    } else {
        seq![y[0]] + merged(le, x, y.skip(1))
    }
}

/// The merge of two sequences from the back; on a tie the right goes last.
pub open spec fn merged_back<T>(le: spec_fn(T, T) -> bool, x: Seq<T>, y: Seq<T>) -> Seq<T>
    decreases x.len() + y.len(),
{
    if x.len() == 0 {
        y
    } else if y.len() == 0 {
        x
    } else if le(x.last(), y.last()) {
        merged_back(le, x, y.drop_last()).push(y.last())
    } else {
        merged_back(le, x.drop_last(), y).push(x.last())
    }
}

/// Merging sorts what two sorted sequences hold.
pub proof fn lemma_merged<T>(le: spec_fn(T, T) -> bool, x: Seq<T>, y: Seq<T>)
    requires
        total_preorder(le),
        sorted(le, x),
        sorted(le, y),
    ensures
        stable_sort_of(le, x + y, merged(le, x, y)),
    decreases x.len() + y.len(),
{
    let m = merged(le, x, y);
    if x.len() == 0 {
        assert(x + y =~= y);
    } else if y.len() == 0 {
        assert(x + y =~= x);
    } else if le(x[0], y[0]) {
        let rest = merged(le, x.skip(1), y);
        lemma_merged(le, x.skip(1), y);
        lemma_stable_add(le, seq![x[0]], x.skip(1) + y, seq![x[0]], rest);
        assert(seq![x[0]] + (x.skip(1) + y) =~= x + y);
        lemma_stable_permutation(le, x + y, m);
        assert forall|i: int, j: int| 0 <= i < seq![x[0]].len() && 0 <= j < rest.len() implies le(#[trigger] seq![x[0]][i], #[trigger] rest[j]) by {
            let k = lemma_permutation_member(rest, x.skip(1) + y, j);
            if k < x.len() - 1 {
                assert(le(x[0], x[k + 1]));
            } else {
                assert(le(y[0], y[k - (x.len() - 1)]));
                assert(le(x[0], y[0]));
            }
        }
        assert(le(x[0], x[0]));
        lemma_sorted_add(le, seq![x[0]], rest);
    } else {
        let rest = merged(le, x, y.skip(1));
        lemma_merged(le, x, y.skip(1));
        let one = seq![y[0]];
        lemma_stable_add(le, one, x + y.skip(1), one, rest);
        assert(untied(le, x, one)) by {
            assert forall|i: int, j: int| 0 <= i < x.len() && 0 <= j < one.len() implies !tied(le, #[trigger] x[i], #[trigger] one[j]) by {
                assert(le(x[0], x[i]));
                if le(x[i], y[0]) {
                    assert(le(x[0], x[i]) && le(x[i], y[0]));
                }
            }
        }
        lemma_stable_swap(le, x, one);
        lemma_stable_add(le, x + one, y.skip(1), one + x, y.skip(1));
        assert((x + one) + y.skip(1) =~= x + y);
        assert((one + x) + y.skip(1) =~= one + (x + y.skip(1)));
        lemma_stable_trans(le, x + y, one + (x + y.skip(1)), m);
        lemma_stable_permutation(le, x + y, m);
        assert forall|i: int, j: int| 0 <= i < one.len() && 0 <= j < rest.len() implies le(#[trigger] one[i], #[trigger] rest[j]) by {
            let k = lemma_permutation_member(rest, x + y.skip(1), j);
            if k < x.len() {
                assert(le(x[0], x[k]));
                assert(le(y[0], x[0]) || le(x[0], y[0]));
            } else {
                assert(le(y[0], y[k - x.len() + 1]));
            }
        }
        assert(le(y[0], y[0]));
        lemma_sorted_add(le, one, rest);
    }
}

/// Merging from the back sorts what two sorted sequences hold.
pub proof fn lemma_merged_back<T>(le: spec_fn(T, T) -> bool, x: Seq<T>, y: Seq<T>)
    requires
        total_preorder(le),
        sorted(le, x),
        sorted(le, y),
    ensures
        stable_sort_of(le, x + y, merged_back(le, x, y)),
    decreases x.len() + y.len(),
{
    let m = merged_back(le, x, y);
    if x.len() == 0 {
        assert(x + y =~= y);
    } else if y.len() == 0 {
        assert(x + y =~= x);
    } else if le(x.last(), y.last()) {
        let yl = y.last();
        let rest = merged_back(le, x, y.drop_last());
        lemma_merged_back(le, x, y.drop_last());
        lemma_stable_add(le, x + y.drop_last(), seq![yl], rest, seq![yl]);
        assert((x + y.drop_last()) + seq![yl] =~= x + y);
        assert(rest + seq![yl] =~= m);
        lemma_stable_permutation(le, x + y, m);
        assert forall|i: int, j: int| 0 <= i < rest.len() && 0 <= j < seq![yl].len() implies le(#[trigger] rest[i], #[trigger] seq![yl][j]) by {
            let k = lemma_permutation_member(rest, x + y.drop_last(), i);
            if k < x.len() {
                assert(le(x[k], x[x.len() - 1]));
                assert(le(x.last(), yl));
            } else {
                assert(le(y[k - x.len()], y[y.len() - 1]));
            }
        }
        assert(le(yl, yl));
        lemma_sorted_add(le, rest, seq![yl]);
    } else {
        let xl = x.last();
        let one = seq![xl];
        let rest = merged_back(le, x.drop_last(), y);
        lemma_merged_back(le, x.drop_last(), y);
        lemma_stable_add(le, x.drop_last() + y, one, rest, one);
        assert(rest + one =~= m);
        assert(untied(le, one, y)) by {
            assert forall|i: int, j: int| 0 <= i < one.len() && 0 <= j < y.len() implies !tied(le, #[trigger] one[i], #[trigger] y[j]) by {
                assert(le(y[j], y[y.len() - 1]));
                if le(xl, y[j]) {
                    assert(le(xl, y[j]) && le(y[j], y.last()));
                }
            }
        }
        lemma_stable_swap(le, one, y);
        lemma_stable_add(le, x.drop_last(), one + y, x.drop_last(), y + one);
        assert(x.drop_last() + (one + y) =~= x + y);
        assert(x.drop_last() + (y + one) =~= (x.drop_last() + y) + one);
        lemma_stable_trans(le, x + y, (x.drop_last() + y) + one, m);
        lemma_stable_permutation(le, x + y, m);
        assert forall|i: int, j: int| 0 <= i < rest.len() && 0 <= j < one.len() implies le(#[trigger] rest[i], #[trigger] one[j]) by {
            let k = lemma_permutation_member(rest, x.drop_last() + y, i);
            if k < x.len() - 1 {
                assert(le(x[k], x[x.len() - 1]));
            } else {
                assert(le(y[k - (x.len() - 1)], y[y.len() - 1]));
                assert(le(y.last(), xl) || le(xl, y.last()));
            }
        }
        assert(le(xl, xl));
        lemma_sorted_add(le, rest, one);
    }
}

/// Both merges give the same sequence.
pub proof fn lemma_merges_equal<T>(le: spec_fn(T, T) -> bool, x: Seq<T>, y: Seq<T>)
    requires
        total_preorder(le),
        sorted(le, x),
        sorted(le, y),
    ensures
        merged(le, x, y) == merged_back(le, x, y),
{
    lemma_merged(le, x, y);
    lemma_merged_back(le, x, y);
    stable_sort_is_unique(le, x + y, merged(le, x, y), merged_back(le, x, y));
}

/// A merge loses nothing and adds nothing, whatever the relation is.
pub proof fn lemma_merged_permutation<T>(le: spec_fn(T, T) -> bool, x: Seq<T>, y: Seq<T>)
    ensures
        permutation(x + y, merged(le, x, y)),
    decreases x.len() + y.len(),
{
    if x.len() == 0 {
        assert(x + y =~= y);
    } else if y.len() == 0 {
        assert(x + y =~= x);
    } else if le(x[0], y[0]) {
        lemma_merged_permutation(le, x.skip(1), y);
        lemma_permutation_add(seq![x[0]], x.skip(1) + y, seq![x[0]], merged(le, x.skip(1), y));
        assert(seq![x[0]] + (x.skip(1) + y) =~= x + y);
    } else {
        lemma_merged_permutation(le, x, y.skip(1));
        lemma_permutation_add(seq![y[0]], x + y.skip(1), seq![y[0]], merged(le, x, y.skip(1)));
        lemma_permutation_swap(seq![y[0]], x);
        lemma_permutation_add(seq![y[0]] + x, y.skip(1), x + seq![y[0]], y.skip(1));
        assert((seq![y[0]] + x) + y.skip(1) =~= seq![y[0]] + (x + y.skip(1)));
        assert((x + seq![y[0]]) + y.skip(1) =~= x + y);
    }
}

// ---- sorting positions ---------------------------------------------------------------------------

/// The positions `0..n` in order.
pub open spec fn iota(n: nat) -> Seq<int> {
    Seq::new(n, |i: int| i)
}

/// The elements of `a` at the positions `ix`.
pub open spec fn picked<T>(a: Seq<T>, ix: Seq<int>) -> Seq<T> {
    Seq::new(ix.len(), |i: int| a[ix[i]])
}

/// The order of the positions of `a` by element, and by position where the
/// elements tie.
pub open spec fn position_le<T>(le: spec_fn(T, T) -> bool, a: Seq<T>) -> spec_fn(int, int) -> bool {
    |i: int, j: int| le(a[i], a[j]) && (le(a[j], a[i]) ==> i <= j)
}

pub proof fn lemma_position_le_total<T>(le: spec_fn(T, T) -> bool, a: Seq<T>)
    requires
        total_preorder(le),
    ensures
        total_preorder(position_le(le, a)),
{
    let ple = position_le(le, a);
    assert forall|x: int, y: int| #[trigger] ple(x, y) || ple(y, x) by {
        assert(le(a[x], a[y]) || le(a[y], a[x]));
    }
    assert forall|x: int, y: int, z: int| #[trigger] ple(x, y) && #[trigger] ple(y, z) implies ple(x, z) by {
        assert(le(a[x], a[y]) && le(a[y], a[z]));
        if le(a[z], a[x]) {
            assert(le(a[z], a[x]) && le(a[x], a[y]));
            assert(le(a[y], a[z]) && le(a[z], a[x]));
        }
    }
}

/// Where tied elements are equal, every permutation is stable.
pub proof fn lemma_antisymmetric_stable<T>(le: spec_fn(T, T) -> bool, a: Seq<T>, b: Seq<T>)
    requires
        total_preorder(le),
        permutation(a, b),
        forall|i: int, j: int| 0 <= i < a.len() && 0 <= j < a.len() && tied(le, #[trigger] a[i], #[trigger] a[j]) ==> a[i] == a[j],
    ensures
        stable(le, a, b),
{
    lemma_permutation_len(a, b);
    assert forall|i: int| 0 <= i < a.len() implies class(le, a, #[trigger] a[i]) == class(le, b, a[i]) by {
        let x = a[i];
        let p = tied_with(le, x);
        let fa = a.filter(p);
        let fb = b.filter(p);
        assert forall|k: int| 0 <= k < fa.len() implies #[trigger] fa[k] == x by {
            let m = lemma_filter_member(a, p, k);
            assert(tied(le, a[i], a[m]));
        }
        assert forall|k: int| 0 <= k < fb.len() implies #[trigger] fb[k] == x by {
            let m = lemma_filter_member(b, p, k);
            let l = lemma_permutation_member(b, a, m);
            assert(tied(le, a[i], a[l]));
        }
        lemma_filter_count(a, p, x);
        lemma_filter_count(b, p, x);
        assert(le(x, x));
        lemma_constant_count(fa, x);
        lemma_constant_count(fb, x);
        assert(fa =~= fb);
    }
    lemma_stable_from_members(le, a, b);
}

pub proof fn lemma_constant_count<T>(s: Seq<T>, x: T)
    requires
        forall|k: int| 0 <= k < s.len() ==> #[trigger] s[k] == x,
    ensures
        s.to_multiset().count(x) == s.len(),
    decreases s.len(),
{
    broadcast use vstd::seq_lib::group_to_multiset_ensures;

    if s.len() > 0 {
        assert forall|k: int| 0 <= k < s.drop_last().len() implies #[trigger] s.drop_last()[k] == x by {
            assert(s[k] == x);
        }
        lemma_constant_count(s.drop_last(), x);
        assert(s[s.len() - 1] == x);
        assert(s =~= s.drop_last().push(x));
    } else {
        assert(s =~= Seq::<T>::empty());
    }
}

/// Filtering picked elements is picking filtered positions.
pub proof fn lemma_picked_filter<T>(a: Seq<T>, ix: Seq<int>, p: spec_fn(T) -> bool, q: spec_fn(int) -> bool)
    requires
        forall|i: int| #[trigger] q(i) == p(a[i]),
    ensures
        picked(a, ix).filter(p) == picked(a, ix.filter(q)),
    decreases ix.len(),
{
    reveal(Seq::filter);
    if ix.len() == 0 {
        assert(picked(a, ix) =~= Seq::<T>::empty());
        assert(picked(a, ix.filter(q)) =~= Seq::<T>::empty());
    } else {
        let l = ix.drop_last();
        lemma_picked_filter(a, l, p, q);
        assert(picked(a, ix).drop_last() =~= picked(a, l));
        assert(q(ix.last()) == p(a[ix.last()]));
        if q(ix.last()) {
            assert(picked(a, l.filter(q).push(ix.last())) =~= picked(a, l.filter(q)).push(a[ix.last()]));
        }
    }
}

pub proof fn lemma_picked_iota<T>(a: Seq<T>)
    ensures
        picked(a, iota(a.len())) == a,
{
    assert(picked(a, iota(a.len())) =~= a);
}

/// Mapping two permutations of each other keeps them such.
pub proof fn lemma_map_permutation<A, B>(a: Seq<A>, b: Seq<A>, f: spec_fn(A) -> B)
    requires
        permutation(a, b),
    ensures
        permutation(a.map_values(f), b.map_values(f)),
    decreases a.len(),
{
    broadcast use vstd::seq_lib::group_to_multiset_ensures;

    lemma_permutation_len(a, b);
    if a.len() == 0 {
        assert(a.map_values(f) =~= b.map_values(f));
    } else {
        let x = a.last();
        let k = lemma_permutation_member(a, b, a.len() - 1);
        let l = a.drop_last();
        let m = b.remove(k);
        assert(a =~= l.push(x));
        assert(b =~= m.insert(k, x));
        assert(l.to_multiset() =~= a.to_multiset().remove(x));
        assert(m.to_multiset() =~= b.to_multiset().remove(x));
        lemma_map_permutation(l, m, f);
        assert(a.map_values(f) =~= l.map_values(f).push(f(x)));
        assert(b.map_values(f) =~= m.map_values(f).insert(k, f(x)));
        assert(a.map_values(f).to_multiset() =~= l.map_values(f).to_multiset().insert(f(x)));
        assert(b.map_values(f).to_multiset() =~= m.map_values(f).to_multiset().insert(f(x)));
    }
}

/// A permutation of the positions holds each once.
pub proof fn lemma_positions_distinct(n: nat, ix: Seq<int>)
    requires
        permutation(iota(n), ix),
    ensures
        ix.no_duplicates(),
        ix.len() == n,
        forall|k: int| 0 <= k < ix.len() ==> 0 <= #[trigger] ix[k] < n,
{
    lemma_permutation_len(iota(n), ix);
    iota(n).lemma_multiset_has_no_duplicates();
    iota(n).to_multiset_ensures();
    ix.to_multiset_ensures();
    ix.lemma_multiset_has_no_duplicates_conv();
    assert forall|k: int| 0 <= k < ix.len() implies 0 <= #[trigger] ix[k] < n by {
        let i = lemma_permutation_member(ix, iota(n), k);
    }
}

/// Picking along a permutation of the positions permutes.
pub proof fn lemma_picked_permutation<T>(a: Seq<T>, ix: Seq<int>, jx: Seq<int>)
    requires
        permutation(ix, jx),
    ensures
        permutation(picked(a, ix), picked(a, jx)),
{
    let f = |i: int| a[i];
    lemma_map_permutation(ix, jx, f);
    assert(picked(a, ix) =~= ix.map_values(f));
    assert(picked(a, jx) =~= jx.map_values(f));
}

/// Picking along the positions sorted by element and position is the stable
/// sort.
pub proof fn lemma_picked_sort<T>(le: spec_fn(T, T) -> bool, a: Seq<T>, ix: Seq<int>)
    requires
        total_preorder(le),
        permutation(iota(a.len()), ix),
        sorted(position_le(le, a), ix),
    ensures
        stable_sort_of(le, a, picked(a, ix)),
{
    let b = picked(a, ix);
    let n = a.len();
    let ids = iota(n);
    let by_id = by_key(|i: int| i);
    lemma_permutation_len(ids, ix);
    lemma_picked_iota(a);
    assert forall|x: T| #![trigger class(le, a, x)] class(le, a, x) == class(le, b, x) by {
        let p = tied_with(le, x);
        let q = |i: int| p(a[i]);
        lemma_picked_filter(a, ids, p, q);
        lemma_picked_filter(a, ix, p, q);
        let f = ids.filter(q);
        let g = ix.filter(q);
        assert(permutation(f, g)) by {
            assert forall|v: int| f.to_multiset().count(v) == g.to_multiset().count(v) by {
                lemma_filter_count(ids, q, v);
                lemma_filter_count(ix, q, v);
            }
            assert(f.to_multiset() =~= g.to_multiset());
        }
        assert(sorted(by_id, ids));
        lemma_filter_sorted(by_id, ids, q);
        assert(sorted(by_id, g)) by {
            lemma_filter_sorted(position_le(le, a), ix, q);
            assert forall|k: int, l: int| 0 <= k <= l < g.len() implies by_id(#[trigger] g[k], #[trigger] g[l]) by {
                let i = lemma_filter_member(ix, q, k);
                let j = lemma_filter_member(ix, q, l);
                assert(position_le(le, a)(g[k], g[l]));
                assert(tied(le, x, a[g[k]]) && tied(le, x, a[g[l]]));
                assert(le(a[g[l]], x) && le(x, a[g[k]]));
            }
        }
        lemma_antisymmetric_stable(by_id, f, g);
        lemma_sorted_unique(by_id, f, g);
    }
    lemma_stable_permutation(le, a, b);
    assert forall|i: int, j: int| 0 <= i <= j < b.len() implies le(#[trigger] b[i], #[trigger] b[j]) by {
        assert(position_le(le, a)(ix[i], ix[j]));
    }
}

} // verus!
