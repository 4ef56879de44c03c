//! Comparisons of elements by reference, and the orders of positions that they
//! give.
use crate::less::{sorted_by, Less, Natural};
use crate::order::{
    by_key, class, iota, lemma_by_key_total, lemma_filter_index, lemma_filter_index_lt,
    lemma_filter_sorted, lemma_map_permutation, lemma_picked_iota, lemma_picked_permutation,
    lemma_picked_sort, permutation, picked, position_le, sorted, stable, stable_sort_of,
    tied_with, total_preorder,
};
use crate::view::{elem_le, keeps_record, lemma_elem_le_total, Elem, Hooks, Note};
use core::cmp::Ordering;
use vstd::prelude::*;

verus! {

/// A three-way comparison of elements.
pub trait Compare<T> {
    /// Whether every answer of the comparison is that of the order `le`. A
    /// comparison may follow none: it is then no order, and nothing is known of
    /// an answer.
    spec fn follows(&self, le: spec_fn(T, T) -> bool) -> bool;

    /// Whether `x` may be compared with `y`.
    spec fn takes(&self, x: T, y: T) -> bool;

    /// What a comparison follows is a total preorder.
    proof fn follows_total(&self, le: spec_fn(T, T) -> bool)
        requires
            self.follows(le),
        ensures
            total_preorder(le),
    ;

    /// Negative if `a` goes before `b`, positive if `b` goes before `a`.
    fn order(&self, a: &T, b: &T) -> (r: i32)
        requires
            self.takes(*a, *b),
        ensures
            -1 <= r <= 1,
            forall|le: spec_fn(T, T) -> bool| #[trigger] self.follows(le) ==> (r < 0 <==> !le(*b, *a)) && (r > 0 <==> !le(*a, *b)),
    ;

    /// The bytes outside the elements that a comparison looks at, where it is
    /// known to look at some.
    spec fn loads(&self, a: T, b: T) -> Option<u64>;

    /// Records the bytes outside the elements that a comparison looks at, where
    /// it is known to look at some.
    fn note_bytes<H: Hooks>(&self, a: &T, b: &T, hooks: &mut H)
        ensures
            keeps_record(*old(hooks), *final(hooks)),
            H::records() ==> final(hooks).tally() == loaded::<H>(old(hooks).tally(), self.loads(*a, *b)),
    ;
}

/// The record once the bytes of a key were loaded, where there are any.
pub open spec fn loaded<H: Hooks>(t: H::Tally, bytes: Option<u64>) -> H::Tally {
    match bytes {
        Some(k) => H::after(t, Note::Key(k)),
        None => t,
    }
}

/// Every two elements may be compared.
pub open spec fn all_taken<T, C: Compare<T>>(c: &C, s: Seq<T>) -> bool {
    forall|i: int, j: int| 0 <= i < s.len() && 0 <= j < s.len() ==> c.takes(#[trigger] s[i], #[trigger] s[j])
}

/// The comparison follows some order.
pub open spec fn is_order<T, C: Compare<T>>(c: &C) -> bool {
    exists|le: spec_fn(T, T) -> bool| #[trigger] c.follows(le)
}

/// `b` is the stable sort of `a` by every order that the comparison follows.
pub open spec fn ordered_by<T, C: Compare<T>>(c: &C, a: Seq<T>, b: Seq<T>) -> bool {
    &&& permutation(a, b)
    &&& forall|le: spec_fn(T, T) -> bool| #[trigger] c.follows(le) ==> stable_sort_of(le, a, b)
}

impl<T: Elem> Compare<T> for Natural {
    open spec fn follows(&self, le: spec_fn(T, T) -> bool) -> bool {
        le == elem_le::<T>()
    }

    open spec fn takes(&self, x: T, y: T) -> bool {
        true
    }

    proof fn follows_total(&self, le: spec_fn(T, T) -> bool) {
        lemma_elem_le_total::<T>();
    }

    fn order(&self, a: &T, b: &T) -> (r: i32) {
        let c: i32 = T::compare(*a, *b);
        if c < 0 {
            -1
        } else if c > 0 {
            1
        } else {
            0
        }
    }

    open spec fn loads(&self, a: T, b: T) -> Option<u64> {
        Some(a.compare_load(&b, 0) as u64)
    }

    fn note_bytes<H: Hooks>(&self, a: &T, b: &T, hooks: &mut H) {
        if H::counted() {
            hooks.on_key_pair(T::key_place(*a, 0), T::key_place(*b, 0), T::compare_bytes(*a, *b, 0));
        }
    }
}

// ---- comparators ---------------------------------------------------------------------------------

/// How `x` and `y` compare by `le`.
pub open spec fn ordering_of<T>(le: spec_fn(T, T) -> bool, x: T, y: T) -> Ordering {
    if !le(y, x) {
        Ordering::Less
    } else if !le(x, y) {
        Ordering::Greater
    } else {
        Ordering::Equal
    }
}

/// The comparator answers as the order `le` does.
pub open spec fn comparator_follows<T, F: Fn(&T, &T) -> Ordering>(f: F, le: spec_fn(T, T) -> bool) -> bool {
    &&& total_preorder(le)
    &&& forall|x: T, y: T, o: Ordering| #[trigger] call_ensures(f, (&x, &y), o) ==> o == ordering_of(le, x, y)
}

/// Every two elements may be handed to the comparator.
pub open spec fn comparator_takes<T, F: Fn(&T, &T) -> Ordering>(f: F, s: Seq<T>) -> bool {
    forall|i: int, j: int| 0 <= i < s.len() && 0 <= j < s.len() ==> call_requires(f, (&#[trigger] s[i], &#[trigger] s[j]))
}

/// The number of an ordering.
pub open spec fn sign_of(o: Ordering) -> int {
    match o {
        Ordering::Less => -1,
        Ordering::Equal => 0,
        Ordering::Greater => 1,
    }
}

/// `a` may be compared with `b`.
pub open spec fn may_ask<T, F: Fn(&T, &T) -> Ordering>(f: &F, a: &T, b: &T) -> bool {
    call_requires(*f, (a, b))
}

/// The number of an answer that the comparator may give.
pub open spec fn answers<T, F: Fn(&T, &T) -> Ordering>(f: &F, a: &T, b: &T, r: i32) -> bool {
    exists|o: Ordering| #[trigger] call_ensures(*f, (a, b), o) && r == sign_of(o)
}

/// The order of a function that answers with a number.
pub struct BySign<F>(pub F);

/// The function answers as the order `le` does.
pub open spec fn sign_follows<T, F: Fn(&T, &T) -> i32>(f: F, le: spec_fn(T, T) -> bool) -> bool {
    &&& total_preorder(le)
    &&& forall|x: T, y: T, r: i32| #[trigger] call_ensures(f, (&x, &y), r) ==> (r < 0 <==> !le(y, x)) && (r > 0 <==> !le(x, y))
}

impl<T, F: Fn(&T, &T) -> i32> Compare<T> for BySign<F> {
    open spec fn follows(&self, le: spec_fn(T, T) -> bool) -> bool {
        sign_follows(self.0, le)
    }

    open spec fn takes(&self, x: T, y: T) -> bool {
        call_requires(self.0, (&x, &y))
    }

    open spec fn loads(&self, a: T, b: T) -> Option<u64> {
        None
    }

    fn note_bytes<H: Hooks>(&self, a: &T, b: &T, hooks: &mut H) {
    }

    proof fn follows_total(&self, le: spec_fn(T, T) -> bool) {
    }

    fn order(&self, a: &T, b: &T) -> (r: i32) {
        let c: i32 = (self.0)(a, b);
        if c < 0 {
            -1
        } else if c > 0 {
            1
        } else {
            0
        }
    }
}

/// The ordering of a three-way answer.
pub fn answer(c: i32) -> (r: Ordering)
    ensures
        r == if c < 0 {
            Ordering::Less
        } else if c > 0 {
            Ordering::Greater
        } else {
            Ordering::Equal
        },
{
    if c < 0 {
        Ordering::Less
    } else if c > 0 {
        Ordering::Greater
    } else {
        Ordering::Equal
    }
}

/// `slice::sort_by` of the standard library: a stable sort. It may panic where
/// the comparison is not a total order, so one is asked for.
#[verifier::external_body]
pub(crate) fn std_sort_by<T, C: Compare<T>>(v: &mut [T], c: &C)
    requires
        all_taken(c, old(v)@),
        is_order(c),
    ensures
        ordered_by(c, old(v)@, final(v)@),
{
    v.sort_by(|a, b| answer(c.order(a, b)))
}

// ---- positions -----------------------------------------------------------------------------------

/// The positions as integers.
pub open spec fn ints(ix: Seq<u32>) -> Seq<int> {
    ix.map_values(|x: u32| x as int)
}

/// The positions `ix` list the elements of `a` in the order of their stable
/// sort.
pub open spec fn lists_sorted<T, C: Compare<T>>(c: &C, a: Seq<T>, ix: Seq<u32>) -> bool {
    &&& permutation(iota(a.len()), ints(ix))
    &&& forall|le: spec_fn(T, T) -> bool| #[trigger] c.follows(le) ==> sorted(position_le(le, a), ints(ix))
}

/// Elements taken in that order are sorted.
pub proof fn lemma_lists_sorted<T, C: Compare<T>>(c: &C, a: Seq<T>, ix: Seq<u32>)
    requires
        lists_sorted(c, a, ix),
    ensures
        ordered_by(c, a, picked(a, ints(ix))),
{
    lemma_picked_iota(a);
    lemma_picked_permutation(a, iota(a.len()), ints(ix));
    assert forall|le: spec_fn(T, T) -> bool| #[trigger] c.follows(le) implies stable_sort_of(le, a, picked(a, ints(ix))) by {
        c.follows_total(le);
        lemma_picked_sort(le, a, ints(ix));
    }
}

/// The order of positions by element.
pub open spec fn index_le<T>(le: spec_fn(T, T) -> bool, a: Seq<T>) -> spec_fn(u32, u32) -> bool {
    |x: u32, y: u32| le(a[x as int], a[y as int])
}

/// Positions compared by the elements there.
pub struct IndexOrder<'a, T, C> {
    /// The elements.
    pub v: &'a [T],
    /// Their comparison.
    pub c: &'a C,
}

impl<'a, T, C: Compare<T>> Less<u32> for IndexOrder<'a, T, C> {
    open spec fn follows(&self, le: spec_fn(u32, u32) -> bool) -> bool {
        exists|of: spec_fn(T, T) -> bool| #[trigger] self.c.follows(of) && le == index_le(of, self.v@)
    }

    open spec fn accepts(&self, x: u32) -> bool {
        x < self.v@.len() && all_taken(self.c, self.v@)
    }

    open spec fn tells(&self) -> bool {
        false
    }

    open spec fn notes(&self, a: u32, b: u32, less: bool) -> Seq<Note> {
        Seq::empty()
    }

    proof fn follows_total(&self, le: spec_fn(u32, u32) -> bool) {
        let of = choose|of: spec_fn(T, T) -> bool| #[trigger] self.c.follows(of) && le == index_le(of, self.v@);
        self.c.follows_total(of);
        let a = self.v@;
        assert forall|x: u32, y: u32| #[trigger] le(x, y) || le(y, x) by {
            assert(of(a[x as int], a[y as int]) || of(a[y as int], a[x as int]));
        }
        assert forall|x: u32, y: u32, z: u32| #[trigger] le(x, y) && #[trigger] le(y, z) implies le(x, z) by {
            assert(of(a[x as int], a[y as int]) && of(a[y as int], a[z as int]));
        }
    }

    fn less(&self, a: u32, b: u32) -> (r: bool) {
        let c: i32 = self.c.order(&self.v[a as usize], &self.v[b as usize]);
        proof {
            assert forall|le: spec_fn(u32, u32) -> bool| #[trigger] Less::<u32>::follows(self, le) implies (c < 0) == !le(b, a) by {
                let of = choose|of: spec_fn(T, T) -> bool| #[trigger] self.c.follows(of) && le == index_le(of, self.v@);
            }
        }
        c < 0
    }

    fn less_seen<H: Hooks>(&self, a: u32, b: u32, hooks: &mut H) -> (r: bool) {
        let r = self.less(a, b);
        hooks.on_compare(r);
        r
    }
}

impl<'a, T, C: Compare<T>> Compare<u32> for IndexOrder<'a, T, C> {
    open spec fn follows(&self, le: spec_fn(u32, u32) -> bool) -> bool {
        Less::<u32>::follows(self, le)
    }

    open spec fn takes(&self, x: u32, y: u32) -> bool {
        x < self.v@.len() && y < self.v@.len() && all_taken(self.c, self.v@)
    }

    open spec fn loads(&self, a: u32, b: u32) -> Option<u64> {
        None
    }

    fn note_bytes<H: Hooks>(&self, a: &u32, b: &u32, hooks: &mut H) {
    }

    proof fn follows_total(&self, le: spec_fn(u32, u32) -> bool) {
        Less::<u32>::follows_total(self, le);
    }

    fn order(&self, a: &u32, b: &u32) -> (r: i32) {
        let c: i32 = self.c.order(&self.v[*a as usize], &self.v[*b as usize]);
        proof {
            assert forall|le: spec_fn(u32, u32) -> bool| #[trigger] Less::<u32>::follows(self, le) implies (c < 0 <==> !le(*b, *a)) && (c > 0 <==> !le(*a, *b)) by {
                let of = choose|of: spec_fn(T, T) -> bool| #[trigger] self.c.follows(of) && le == index_le(of, self.v@);
            }
        }
        c
    }
}

/// The positions `0..n`.
pub open spec fn numbers_to(n: nat) -> Seq<u32> {
    Seq::new(n, |i: int| i as u32)
}

/// Positions sorted by element, ties in order, list the elements sorted.
pub proof fn lemma_index_sorted<'a, T, C: Compare<T>>(o: &IndexOrder<'a, T, C>, ix: Seq<u32>)
    requires
        o.v@.len() <= 0xFFFF_FFFF,
        sorted_by(o, numbers_to(o.v@.len()), ix),
    ensures
        lists_sorted(o.c, o.v@, ix),
{
    let n = o.v@.len();
    let ids = numbers_to(n);
    let f = |x: u32| x as int;
    lemma_map_permutation(ids, ix, f);
    assert(ids.map_values(f) =~= iota(n));
    assert forall|le: spec_fn(T, T) -> bool| #[trigger] o.c.follows(le) implies sorted(position_le(le, o.v@), ints(ix)) by {
        let me = index_le(le, o.v@);
        assert(Less::<u32>::follows(o, me));
        lemma_ties_ascend(me, ids, ix);
        let ple = position_le(le, o.v@);
        assert forall|i: int, j: int| 0 <= i <= j < ints(ix).len() implies ple(#[trigger] ints(ix)[i], #[trigger] ints(ix)[j]) by {
            assert(me(ix[i], ix[j]));
            if me(ix[j], ix[i]) {
                assert(ix[i] <= ix[j]);
            }
        }
    }
}

/// Tied numbers that ascend before a stable sort ascend after it.
pub proof fn lemma_ties_ascend(le: spec_fn(u32, u32) -> bool, a: Seq<u32>, b: Seq<u32>)
    requires
        stable(le, a, b),
        sorted(le, b),
        forall|i: int, j: int| 0 <= i <= j < a.len() ==> #[trigger] a[i] <= #[trigger] a[j],
    ensures
        forall|i: int, j: int| 0 <= i <= j < b.len() && le(#[trigger] b[j], #[trigger] b[i]) ==> b[i] <= b[j],
{
    assert forall|i: int, j: int| 0 <= i <= j < b.len() && le(#[trigger] b[j], #[trigger] b[i]) implies b[i] <= b[j] by {
        if i < j {
            let p = tied_with(le, b[i]);
            assert(le(b[i], b[i]) && le(b[i], b[j]));
            let by = by_key(|x: u32| x as int);
            lemma_by_key_total(|x: u32| x as int);
            lemma_filter_sorted(by, a, p);
            assert(class(le, a, b[i]) == class(le, b, b[i]));
            lemma_filter_index(b, p, i);
            lemma_filter_index(b, p, j);
            lemma_filter_index_lt(b, p, i, j);
        }
    }
}

} // verus!
