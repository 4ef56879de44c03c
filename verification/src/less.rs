//! Orders that are handed to a sort as values: the elements' own, or one that
//! a caller supplies and that may turn out to be no order at all.
use crate::order::{
    lemma_insert, lemma_permutation_add, lemma_permutation_member, lemma_permutation_swap,
    lemma_stable_add, lemma_stable_trans, permutation, sorted, stable_sort_of, total_preorder,
};
use crate::view::{
    elem_le, gained, keeps_record, lemma_elem_le_total, lemma_told_one, lemma_told_two, note_compare,
    told, Elem, Hooks, Note,
};
use vstd::prelude::*;

verus! {

/// A strict comparison of small plain values.
pub trait Less<T> {
    /// Whether every answer of the comparison is that of the order `le`. A
    /// comparison may follow none (it is then no order, and nothing is known of
    /// an answer).
    spec fn follows(&self, le: spec_fn(T, T) -> bool) -> bool;

    /// Whether `x` may be compared.
    spec fn accepts(&self, x: T) -> bool;

    /// Whether `notes` tells what a comparison leaves on record.
    spec fn tells(&self) -> bool;

    /// What is noted of comparing `a` with `b`, with the answer `less`.
    spec fn notes(&self, a: T, b: T, less: bool) -> Seq<Note>;

    /// What a comparison follows is a total preorder.
    proof fn follows_total(&self, le: spec_fn(T, T) -> bool)
        requires
            self.follows(le),
        ensures
            total_preorder(le),
    ;

    /// Whether `a` goes before `b`.
    fn less(&self, a: T, b: T) -> (r: bool)
        requires
            self.accepts(a),
            self.accepts(b),
        ensures
            forall|le: spec_fn(T, T) -> bool| #[trigger] self.follows(le) ==> r == !le(b, a),
    ;

    /// Whether `a` goes before `b`, with the comparison recorded.
    fn less_seen<H: Hooks>(&self, a: T, b: T, hooks: &mut H) -> (r: bool)
        requires
            self.accepts(a),
            self.accepts(b),
        ensures
            keeps_record(*old(hooks), *final(hooks)),
            H::records() ==> gained(old(hooks).compares(), final(hooks).compares(), 1),
            self.tells() ==> final(hooks).tally() == told::<H>(old(hooks).tally(), self.notes(a, b, r)),
            forall|le: spec_fn(T, T) -> bool| #[trigger] self.follows(le) ==> r == !le(b, a),
    ;
}

/// What is noted of a comparison.
pub open spec fn notes_of<T, O: Less<T>>(o: &O) -> spec_fn(T, T, bool) -> Seq<Note> {
    |a: T, b: T, less: bool| o.notes(a, b, less)
}

/// The comparison follows an order and tells what it leaves on record.
pub open spec fn tells_order<T, O: Less<T>>(o: &O) -> bool {
    o.tells() && exists|le: spec_fn(T, T) -> bool| #[trigger] o.follows(le)
}

/// The order that the comparison follows.
pub open spec fn order_of<T, O: Less<T>>(o: &O) -> spec_fn(T, T) -> bool {
    choose|le: spec_fn(T, T) -> bool| #[trigger] o.follows(le)
}

/// Every element may be compared.
pub open spec fn all_accepted<T, O: Less<T>>(o: &O, s: Seq<T>) -> bool {
    forall|i: int| 0 <= i < s.len() ==> o.accepts(#[trigger] s[i])
}

/// `s` is sorted by every order that the comparison follows.
pub open spec fn in_order<T, O: Less<T>>(o: &O, s: Seq<T>) -> bool {
    forall|le: spec_fn(T, T) -> bool| #[trigger] o.follows(le) ==> sorted(le, s)
}

/// `b` holds the elements of `a`, and is their stable sort by every order that
/// the comparison follows.
pub open spec fn sorted_by<T, O: Less<T>>(o: &O, a: Seq<T>, b: Seq<T>) -> bool {
    &&& permutation(a, b)
    &&& forall|le: spec_fn(T, T) -> bool| #[trigger] o.follows(le) ==> stable_sort_of(le, a, b)
}

pub proof fn lemma_accepted_permutation<T, O: Less<T>>(o: &O, a: Seq<T>, b: Seq<T>)
    requires
        all_accepted(o, a),
        permutation(a, b),
    ensures
        all_accepted(o, b),
{
    assert forall|j: int| 0 <= j < b.len() implies o.accepts(#[trigger] b[j]) by {
        let i = lemma_permutation_member(b, a, j);
        assert(o.accepts(a[i]));
    }
}

/// The elements' own order.
#[derive(Clone, Copy, Debug)]
pub struct Natural;

impl<T: Elem> Less<T> for Natural {
    open spec fn follows(&self, le: spec_fn(T, T) -> bool) -> bool {
        le == elem_le::<T>()
    }

    open spec fn accepts(&self, x: T) -> bool {
        true
    }

    open spec fn tells(&self) -> bool {
        true
    }

    open spec fn notes(&self, a: T, b: T, less: bool) -> Seq<Note> {
        seq![Note::Key(a.compare_load(&b, 0) as u64), Note::Compare(less)]
    }

    proof fn follows_total(&self, le: spec_fn(T, T) -> bool) {
        lemma_elem_le_total::<T>();
    }

    fn less(&self, a: T, b: T) -> (r: bool) {
        T::less(a, b)
    }

    fn less_seen<H: Hooks>(&self, a: T, b: T, hooks: &mut H) -> (r: bool) {
        let r = T::less(a, b);
        note_compare(a, b, 0, r, hooks);
        proof {
            lemma_told_two::<H>(old(hooks).tally(), Note::Key(a.compare_load(&b, 0) as u64), Note::Compare(r));
        }
        r
    }
}

/// How many of the first `j` elements of `p` stay before `v`.
pub open spec fn slot<T>(le: spec_fn(T, T) -> bool, p: Seq<T>, v: T, j: int) -> int
    decreases j,
{
    if j <= 0 {
        0
    } else if le(p[j - 1], v) {
        j
    } else {
        slot(le, p, v, j - 1)
    }
}

/// `v` in its place among the sorted elements `p`.
pub open spec fn with_placed<T>(le: spec_fn(T, T) -> bool, p: Seq<T>, v: T) -> Seq<T> {
    let j = slot(le, p, v, p.len() as int);
    p.take(j).push(v) + p.skip(j)
}

/// The first `i` elements of `s`, each put in its place in turn.
pub open spec fn placed_to<T>(le: spec_fn(T, T) -> bool, s: Seq<T>, i: int) -> Seq<T>
    decreases i,
{
    if i <= 1 {
        s.take(i)
    } else {
        with_placed(le, placed_to(le, s, i - 1), s[i - 1])
    }
}

/// The record once `v` found its place among the first `j` elements of `p`: those
/// that go after it were moved up.
pub open spec fn place_tally<T, O: Less<T>, H: Hooks>(o: &O, le: spec_fn(T, T) -> bool, t: H::Tally, p: Seq<T>, v: T, j: int) -> H::Tally
    decreases j,
{
    if j <= 0 {
        t
    } else {
        let less = !le(p[j - 1], v);
        let u = told::<H>(H::after(t, Note::Read), o.notes(v, p[j - 1], less));
        if less {
            place_tally::<T, O, H>(o, le, H::after(u, Note::Write), p, v, j - 1)
        } else {
            u
        }
    }
}

/// The record once the first `i` elements of `s` were put in their places.
pub open spec fn insertion_tally<T, O: Less<T>, H: Hooks>(o: &O, le: spec_fn(T, T) -> bool, t: H::Tally, s: Seq<T>, i: int) -> H::Tally
    decreases i,
{
    if i <= 1 {
        t
    } else {
        let before = insertion_tally::<T, O, H>(o, le, t, s, i - 1);
        H::after(place_tally::<T, O, H>(o, le, H::after(before, Note::Read), placed_to(le, s, i - 1), s[i - 1], i - 1), Note::Write)
    }
}

/// Stable insertion sort.
pub fn insertion_sort_by<T: Copy, O: Less<T>, H: Hooks>(a: &mut [T], o: &O, hooks: &mut H)
    requires
        all_accepted(o, old(a)@),
    ensures
        keeps_record(*old(hooks), *final(hooks)),
        H::records() && old(a)@.len() > 0 ==> gained(old(hooks).reads(), final(hooks).reads(), 2 * (old(a)@.len() - 1)) && gained(old(hooks).compares(), final(hooks).compares(), old(a)@.len() - 1),
        sorted_by(o, old(a)@, final(a)@),
        forall|le: spec_fn(T, T) -> bool| #[trigger]
            o.follows(le) && o.tells() && H::records() ==> final(hooks).tally() == insertion_tally::<T, O, H>(o, le, old(hooks).tally(), old(a)@, old(a)@.len() as int),
{
    let ghost s = a@;
    let n: usize = a.len();
    let mut i: usize = 1;
    proof {
        assert forall|le: spec_fn(T, T) -> bool| #[trigger] o.follows(le) implies total_preorder(le) by {
            o.follows_total(le);
        }
    }
    if n == 0 {
        return;
    }
    assert(s.take(1) =~= a@.take(1));
    while i < n
        invariant
            keeps_record(*old(hooks), *hooks),
            1 <= i <= n,
            a@.len() == n,
            s.len() == n,
            H::records() ==> gained(old(hooks).reads(), hooks.reads(), 2 * (i - 1)) && gained(old(hooks).compares(), hooks.compares(), i - 1),
            forall|le: spec_fn(T, T) -> bool| #[trigger] o.follows(le) ==> total_preorder(le),
            all_accepted(o, s),
            sorted_by(o, s.take(i as int), a@.take(i as int)),
            forall|k: int| i <= k < n ==> a@[k] == s[k],
            forall|le: spec_fn(T, T) -> bool| #[trigger] o.follows(le) ==> a@.take(i as int) == placed_to(le, s, i as int),
            forall|le: spec_fn(T, T) -> bool| #[trigger]
                o.follows(le) && o.tells() && H::records() ==> hooks.tally() == insertion_tally::<T, O, H>(o, le, old(hooks).tally(), s, i as int),
        decreases n - i,
    {
        let ghost p = a@.take(i as int);
        let v: T = a[i];
        hooks.on_read(&*a, i);
        proof {
            assert(v == s[i as int]);
            assert(all_accepted(o, s.take(i as int)));
            lemma_accepted_permutation(o, s.take(i as int), p);
        }
        let mut j: usize = i;
        let mut moving = true;
        let ghost seen = *hooks;
        while moving && j > 0
            invariant
                keeps_record(*old(hooks), *hooks),
                0 <= j <= i < n,
                a@.len() == n,
                keeps_record(seen, *hooks),
                H::records() && (j < i || !moving) ==> gained(seen.reads(), hooks.reads(), 1) && gained(seen.compares(), hooks.compares(), 1),
                p.len() == i,
                in_order(o, p),
                all_accepted(o, p),
                o.accepts(v),
                forall|k: int| 0 <= k < j ==> a@[k] == p[k],
                forall|k: int| j < k <= i ==> a@[k] == p[k - 1],
                forall|k: int| i < k < n ==> a@[k] == s[k],
                forall|le: spec_fn(T, T) -> bool, k: int| #![trigger o.follows(le), p[k]] o.follows(le) && j <= k < i ==> !le(p[k], v),
                !moving ==> j > 0 && forall|le: spec_fn(T, T) -> bool| #[trigger] o.follows(le) ==> le(p[j - 1], v),
                forall|le: spec_fn(T, T) -> bool| #[trigger]
                    o.follows(le) ==> slot(le, p, v, i as int) == if moving {
                        slot(le, p, v, j as int)
                    } else {
                        j as int
                    },
                forall|le: spec_fn(T, T) -> bool| #[trigger]
                    o.follows(le) && o.tells() && H::records() ==> place_tally::<T, O, H>(o, le, seen.tally(), p, v, i as int) == if moving {
                        place_tally::<T, O, H>(o, le, hooks.tally(), p, v, j as int)
                    } else {
                        hooks.tally()
                    },
            decreases
                j + (if moving {
                    1int
                } else {
                    0int
                }),
        {
            let q: T = a[j - 1];
            hooks.on_read(&*a, j - 1);
            assert(q == p[j - 1]);
            if o.less_seen(v, q, hooks) {
                a[j] = q;
                hooks.on_write(&*a, j);
                j -= 1;
            } else {
                moving = false;
            }
        }
        a[j] = v;
        hooks.on_write(&*a, j);
        proof {
            let jj = j as int;
            let r = p.take(jj).push(v) + p.skip(jj);
            assert(a@.take(i + 1) =~= r);
            assert(s.take(i + 1) =~= s.take(i as int).push(v));
            lemma_insert_permutation(p, v, jj);
            lemma_permutation_add(s.take(i as int), seq![v], p, seq![v]);
            assert(s.take(i as int) + seq![v] =~= s.take(i + 1));
            assert(p + seq![v] =~= p.push(v));
            assert forall|le: spec_fn(T, T) -> bool| #[trigger] o.follows(le) implies stable_sort_of(le, s.take(i + 1), r) by {
                o.follows_total(le);
                assert forall|k: int| 0 <= k < jj implies le(#[trigger] p[k], v) by {
                    assert(le(p[k], p[jj - 1]));
                }
                lemma_insert(le, p, v, jj);
                lemma_stable_add(le, s.take(i as int), seq![v], p, seq![v]);
                lemma_stable_trans(le, s.take(i + 1), p.push(v), r);
            }
        }
        proof {
            assert forall|le: spec_fn(T, T) -> bool| #[trigger] o.follows(le) implies a@.take(i + 1) == placed_to(le, s, i + 1) by {
                assert(p == placed_to(le, s, i as int));
                assert(slot(le, p, v, i as int) == j);
            }
        }
        i += 1;
    }
    assert(s.take(n as int) =~= s);
    assert(a@.take(n as int) =~= a@);
}

proof fn lemma_insert_permutation<T>(p: Seq<T>, v: T, j: int)
    requires
        0 <= j <= p.len(),
    ensures
        permutation(p.push(v), p.take(j).push(v) + p.skip(j)),
{
    let l = p.take(j);
    let r = p.skip(j);
    lemma_permutation_swap(r, seq![v]);
    lemma_permutation_add(l, r + seq![v], l, seq![v] + r);
    assert(l + (r + seq![v]) =~= p.push(v));
    assert(l + (seq![v] + r) =~= l.push(v) + r);
}

/// A function that says whether its first argument goes before its second.
pub struct ByLess<F>(pub F);

/// The function answers as the order `le` does.
pub open spec fn less_follows<T, F: Fn(&T, &T) -> bool>(f: F, le: spec_fn(T, T) -> bool) -> bool {
    &&& total_preorder(le)
    &&& forall|x: T, y: T, r: bool| #[trigger] call_ensures(f, (&x, &y), r) ==> r == !le(y, x)
}

impl<T, F: Fn(&T, &T) -> bool> Less<T> for ByLess<F> {
    open spec fn follows(&self, le: spec_fn(T, T) -> bool) -> bool {
        less_follows(self.0, le)
    }

    open spec fn accepts(&self, x: T) -> bool {
        forall|y: T| #[trigger] call_requires(self.0, (&x, &y))
    }

    open spec fn tells(&self) -> bool {
        true
    }

    open spec fn notes(&self, a: T, b: T, less: bool) -> Seq<Note> {
        seq![Note::Compare(less)]
    }

    proof fn follows_total(&self, le: spec_fn(T, T) -> bool) {
    }

    fn less(&self, a: T, b: T) -> (r: bool) {
        (self.0)(&a, &b)
    }

    fn less_seen<H: Hooks>(&self, a: T, b: T, hooks: &mut H) -> (r: bool) {
        let r = (self.0)(&a, &b);
        hooks.on_compare(r);
        proof {
            lemma_told_one::<H>(old(hooks).tally(), Note::Compare(r));
        }
        r
    }
}

} // verus!
