//! A handful of monotone runs, merged pairwise from the shorter side with a
//! buffer of at most half the range.
use crate::algorithm::{buffer_for, retold_trail, trail, Scratch, MAX_RUNS};
use crate::algorithm::monotone::lemma_runs_unique;
use crate::algorithm::scout::{closed_run, descent, falling, has_runs, rising, ScoutResult};
use crate::less::{Less, Natural};
use crate::order::{
    lemma_merged, lemma_merged_back, lemma_merged_permutation, lemma_merges_equal,
    lemma_permutation_len, lemma_sorted_add, lemma_stable_add, lemma_stable_permutation,
    lemma_stable_swap, lemma_stable_trans, merged, merged_back, permutation, sorted, stable,
    stable_sort_is_unique, stable_sort_of,
};
use crate::view::{
    after_copies, after_swaps, asks_for, copy_forward, elem_le, keeps_record, lemma_elem_le_total,
    note_copies, note_turned, reverse_range, told, too_large, Alloc, AllocError, Elem, Hooks, Note,
};
use vstd::prelude::*;

verus! {

/// The record once `a` was compared with `b`, with the answer `less`.
pub open spec fn compare_tally<T: Elem, H: Hooks>(t: H::Tally, a: T, b: T, less: bool) -> H::Tally {
    told::<H>(t, Less::<T>::notes(&Natural, a, b, less))
}

/// The record with one element more that was read, where there is one.
pub open spec fn then_read<H: Hooks>(t: H::Tally, more: bool) -> H::Tally {
    if more {
        H::after(t, Note::Read)
    } else {
        t
    }
}

/// The record of merging what is left of two runs from the front.
pub open spec fn forward_tally<T: Elem, H: Hooks>(t: H::Tally, x: Seq<T>, y: Seq<T>) -> H::Tally
    decreases x.len() + y.len(),
{
    if x.len() == 0 {
        t
    } else if y.len() == 0 {
        forward_tally::<T, H>(H::after(H::after(t, Note::Read), Note::Write), x.skip(1), y)
    } else {
        let less = !elem_le::<T>()(x[0], y[0]);
        let u = H::after(compare_tally::<T, H>(t, y[0], x[0], less), Note::Write);
        if less {
            forward_tally::<T, H>(then_read::<H>(u, y.len() > 1), x, y.skip(1))
        } else {
            forward_tally::<T, H>(then_read::<H>(u, x.len() > 1), x.skip(1), y)
        }
    }
}

/// The record of merging what is left of two runs from the back.
pub open spec fn backward_tally<T: Elem, H: Hooks>(t: H::Tally, x: Seq<T>, y: Seq<T>) -> H::Tally
    decreases x.len() + y.len(),
{
    if y.len() == 0 {
        t
    } else if x.len() == 0 {
        backward_tally::<T, H>(H::after(H::after(t, Note::Read), Note::Write), x, y.drop_last())
    } else {
        let less = !elem_le::<T>()(x.last(), y.last());
        let u = H::after(compare_tally::<T, H>(t, y.last(), x.last(), less), Note::Write);
        if less {
            backward_tally::<T, H>(then_read::<H>(u, x.len() > 1), x.drop_last(), y)
        } else {
            backward_tally::<T, H>(then_read::<H>(u, y.len() > 1), x, y.drop_last())
        }
    }
}

/// The record of merging two runs: the shorter one is copied out first.
pub open spec fn merge_tally<T: Elem, H: Hooks>(t: H::Tally, x: Seq<T>, y: Seq<T>) -> H::Tally {
    if x.len() == 0 || y.len() == 0 {
        t
    } else if x.len() <= y.len() {
        forward_tally::<T, H>(H::after(H::after(after_copies::<H>(t, x.len() as int), Note::Read), Note::Read), x, y)
    } else {
        backward_tally::<T, H>(H::after(H::after(after_copies::<H>(t, y.len() as int), Note::Read), Note::Read), x, y)
    }
}

/// The record once the falling ones of the first `j` runs were turned round.
pub open spec fn turn_tally<H: Hooks>(t: H::Tally, r: ScoutResult, j: int) -> H::Tally
    decreases j,
{
    if j <= 0 {
        t
    } else {
        let u = turn_tally::<H>(t, r, j - 1);
        if r.dir[j - 1] < 0 {
            after_swaps::<H>(u, (r.bound[j] - r.bound[j - 1]) / 2)
        } else {
            u
        }
    }
}

/// The stable sort of `a[lo, hi)`.
pub open spec fn sorted_part<T: Elem>(a: Seq<T>, lo: int, hi: int) -> Seq<T> {
    choose|b: Seq<T>| stable_sort_of(elem_le::<T>(), a.subrange(lo, hi), b)
}

/// The record of merging the runs that `r` tells of `a`.
pub open spec fn told_runs_tally<T: Elem, H: Hooks>(t: H::Tally, a: Seq<T>, r: ScoutResult) -> H::Tally {
    let u = turn_tally::<H>(t, r, r.runs as int);
    let b = |j: int| r.bound[j] as int;
    let part = |i: int, j: int| sorted_part(a, b(i), b(j));
    if r.runs <= 1 {
        u
    } else {
        let v = merge_tally::<T, H>(u, part(0, 1), part(1, 2));
        if r.runs == 2 {
            v
        } else if r.runs == 3 {
            merge_tally::<T, H>(v, part(0, 2), part(2, 3))
        } else {
            merge_tally::<T, H>(merge_tally::<T, H>(v, part(2, 3), part(3, 4)), part(0, 2), part(2, 4))
        }
    }
}

/// The record of merging the few runs of `a`.
pub open spec fn few_runs_tally<T: Elem, H: Hooks>(t: H::Tally, a: Seq<T>) -> H::Tally {
    told_runs_tally::<T, H>(t, a, choose|r: ScoutResult| has_runs(elem_le::<T>(), a, r))
}

/// The stable sort of a part is the one that the specification takes.
proof fn lemma_sorted_part<T: Elem>(a: Seq<T>, lo: int, hi: int, b: Seq<T>)
    requires
        stable_sort_of(elem_le::<T>(), a.subrange(lo, hi), b),
    ensures
        sorted_part(a, lo, hi) == b,
{
    lemma_elem_le_total::<T>();
    stable_sort_is_unique(elem_le::<T>(), a.subrange(lo, hi), sorted_part(a, lo, hi), b);
}

/// Two parts side by side, each sorted, then merged.
proof fn lemma_parts_merged<T: Elem>(a: Seq<T>, b: Seq<T>, c: Seq<T>, lo: int, mid: int, hi: int)
    requires
        0 <= lo <= mid <= hi <= a.len() == b.len() == c.len(),
        stable_sort_of(elem_le::<T>(), a.subrange(lo, mid), b.subrange(lo, mid)),
        stable_sort_of(elem_le::<T>(), a.subrange(mid, hi), b.subrange(mid, hi)),
        stable_sort_of(elem_le::<T>(), b.subrange(lo, hi), c.subrange(lo, hi)),
    ensures
        stable_sort_of(elem_le::<T>(), a.subrange(lo, hi), c.subrange(lo, hi)),
{
    let le = elem_le::<T>();
    assert(a.subrange(lo, mid) + a.subrange(mid, hi) =~= a.subrange(lo, hi));
    assert(b.subrange(lo, mid) + b.subrange(mid, hi) =~= b.subrange(lo, hi));
    lemma_stable_add(le, a.subrange(lo, mid), a.subrange(mid, hi), b.subrange(lo, mid), b.subrange(mid, hi));
    lemma_stable_trans(le, a.subrange(lo, hi), b.subrange(lo, hi), c.subrange(lo, hi));
    lemma_elem_le_total::<T>();
    lemma_stable_permutation(le, a.subrange(lo, hi), c.subrange(lo, hi));
}

/// The record of the merges does not depend on how the runs were found.
proof fn lemma_told_runs<T: Elem, H: Hooks>(t: H::Tally, a: Seq<T>, r: ScoutResult, q: ScoutResult)
    requires
        has_runs(elem_le::<T>(), a, r),
        has_runs(elem_le::<T>(), a, q),
    ensures
        told_runs_tally::<T, H>(t, a, r) == told_runs_tally::<T, H>(t, a, q),
{
    lemma_runs_unique(elem_le::<T>(), a, r, q, r.runs as int);
    lemma_turns_alike::<T, H>(t, a, r, q, r.runs as int);
    assert(forall|k: int| 0 <= k <= r.runs ==> #[trigger] r.bound[k] == q.bound[k]);
    assert(r.bound[0] == q.bound[0]);
    if r.runs >= 2 {
        assert(r.bound[1] == q.bound[1] && r.bound[2] == q.bound[2]);
    }
    if r.runs >= 3 {
        assert(r.bound[3] == q.bound[3]);
    }
    if r.runs >= 4 {
        assert(r.bound[4] == q.bound[4]);
    }
}

proof fn lemma_turns_alike<T: Elem, H: Hooks>(t: H::Tally, a: Seq<T>, r: ScoutResult, q: ScoutResult, j: int)
    requires
        has_runs(elem_le::<T>(), a, r),
        has_runs(elem_le::<T>(), a, q),
        0 <= j <= r.runs,
    ensures
        turn_tally::<H>(t, r, j) == turn_tally::<H>(t, q, j),
    decreases j,
{
    if j > 0 {
        lemma_turns_alike::<T, H>(t, a, r, q, j - 1);
        lemma_runs_unique(elem_le::<T>(), a, r, q, r.runs as int);
        lemma_runs_in_order(a, r, j - 1);
        assert(r.bound[j] == q.bound[j] && r.bound[j - 1] == q.bound[j - 1]);
        if a.len() > r.bound[j - 1] + 1 {
            assert(r.dir[j - 1] == q.dir[j - 1]);
        } else {
            assert(j == r.runs) by {
                if j < r.runs {
                    lemma_runs_in_order(a, r, j);
                }
            }
        }
    }
}

/// Merges from the front: the left run is in `buf[0, mid)`, the right run
/// where it was.
fn merge_forward<T: Elem, H: Hooks>(a: &mut [T], buf: &[T], mid: usize, hooks: &mut H, Ghost(x): Ghost<Seq<T>>, Ghost(y): Ghost<Seq<T>>)
    requires
        mid <= old(a)@.len(),
        mid <= buf@.len(),
        x == buf@.take(mid as int),
        y == old(a)@.skip(mid as int),
        sorted(elem_le::<T>(), x),
        sorted(elem_le::<T>(), y),
    ensures
        keeps_record(*old(hooks), *final(hooks)),
        final(a)@ == merged(elem_le::<T>(), x, y),
        H::records() ==> final(hooks).tally() == forward_tally::<T, H>(H::after(H::after(old(hooks).tally(), Note::Read), Note::Read), x, y),
{
    let ghost le = elem_le::<T>();
    let n: usize = a.len();
    let mut i: usize = 0;
    let mut j: usize = mid;
    let mut o: usize = 0;
    hooks.on_read(buf, 0);
    hooks.on_read(&*a, mid);
    let ghost begun = hooks.tally();
    proof {
        lemma_elem_le_total::<T>();
        lemma_merged_permutation(le, x, y);
        lemma_permutation_len(x + y, merged(le, x, y));
        assert(x.skip(0) =~= x);
        assert(y.skip(0) =~= y);
        assert(a@.take(0) + merged(le, x, y) =~= merged(le, x, y));
    }
    while i < mid
        invariant
            keeps_record(*old(hooks), *hooks),
            i <= mid <= j <= n,
            n == a@.len() == x.len() + y.len(),
            mid <= buf@.len(),
            x == buf@.take(mid as int),
            y.len() == n - mid,
            le == elem_le::<T>(),
            merged(le, x, y).len() == n,
            o == i + (j - mid),
            forall|k: int| j <= k < n ==> a@[k] == y[k - mid],
            a@.take(o as int) + merged(le, x.skip(i as int), y.skip(j - mid)) == merged(le, x, y),
            H::records() ==> forward_tally::<T, H>(begun, x, y) == forward_tally::<T, H>(hooks.tally(), x.skip(i as int), y.skip(j - mid)),
        decreases (mid - i) + (n - j),
    {
        let ghost xr = x.skip(i as int);
        let ghost yr = y.skip(j - mid);
        let ghost before = a@.take(o as int);
        assert(Less::<T>::follows(&Natural, le));
        let both = j < n;
        if j < n && Less::<T>::less_seen(&Natural, a[j], buf[i], hooks) {
            a[o] = a[j];
            hooks.on_write(&*a, o);
            j += 1;
            if j < n {
                hooks.on_read(&*a, j);
            }
            proof {
                assert(yr.skip(1) =~= y.skip(j - mid));
                assert(merged(le, xr, yr) == seq![yr[0]] + merged(le, xr, yr.skip(1)));
            }
        } else {
            if !both {
                hooks.on_read(buf, i);
            }
            a[o] = buf[i];
            hooks.on_write(&*a, o);
            i += 1;
            if both && i < mid {
                hooks.on_read(buf, i);
            }
            proof {
                assert(xr.skip(1) =~= x.skip(i as int));
                if yr.len() == 0 {
                    assert(merged(le, xr, yr) =~= seq![xr[0]] + merged(le, xr.skip(1), yr));
                }
                assert(merged(le, xr, yr) == seq![xr[0]] + merged(le, xr.skip(1), yr));
            }
        }
        o += 1;
        assert(a@.take(o as int) =~= before.push(a@[o - 1]));
        assert(a@.take(o as int) + merged(le, x.skip(i as int), y.skip(j - mid)) =~= before + merged(le, xr, yr));
    }
    proof {
        assert(merged(le, x.skip(i as int), y.skip(j - mid)) =~= y.skip(j - mid));
        assert(a@ =~= a@.take(o as int) + y.skip(j - mid));
    }
}

/// Merges from the back: the right run is in `buf`, the left run where it was.
fn merge_backward<T: Elem, H: Hooks>(a: &mut [T], buf: &[T], mid: usize, hooks: &mut H, Ghost(x): Ghost<Seq<T>>, Ghost(y): Ghost<Seq<T>>)
    requires
        mid <= old(a)@.len(),
        old(a)@.len() - mid <= buf@.len(),
        x == old(a)@.take(mid as int),
        y == buf@.take(old(a)@.len() - mid),
        sorted(elem_le::<T>(), x),
        sorted(elem_le::<T>(), y),
    ensures
        keeps_record(*old(hooks), *final(hooks)),
        final(a)@ == merged_back(elem_le::<T>(), x, y),
        H::records() && 0 < mid < old(a)@.len() ==> final(hooks).tally() == backward_tally::<T, H>(H::after(H::after(old(hooks).tally(), Note::Read), Note::Read), x, y),
{
    let ghost le = elem_le::<T>();
    let n: usize = a.len();
    let mut i: usize = mid;
    let mut j: usize = n - mid;
    let mut o: usize = n;
    if mid > 0 && mid < n {
        hooks.on_read(&*a, mid - 1);
        hooks.on_read(buf, n - mid - 1);
    }
    let ghost begun = hooks.tally();
    proof {
        lemma_elem_le_total::<T>();
        lemma_merged_back(le, x, y);
        lemma_permutation_len(x + y, merged_back(le, x, y));
        assert(x.take(mid as int) =~= x);
        assert(y.take(n - mid) =~= y);
        assert(merged_back(le, x, y) + a@.skip(n as int) =~= merged_back(le, x, y));
    }
    while j > 0
        invariant
            keeps_record(*old(hooks), *hooks),
            i <= mid,
            j <= n - mid,
            mid <= n,
            n == a@.len() == x.len() + y.len(),
            x.len() == mid,
            n - mid <= buf@.len(),
            y == buf@.take(n - mid),
            le == elem_le::<T>(),
            merged_back(le, x, y).len() == n,
            o == i + j,
            forall|k: int| 0 <= k < i ==> a@[k] == x[k],
            merged_back(le, x.take(i as int), y.take(j as int)) + a@.skip(o as int) == merged_back(le, x, y),
            H::records() ==> backward_tally::<T, H>(begun, x, y) == backward_tally::<T, H>(hooks.tally(), x.take(i as int), y.take(j as int)),
        decreases i + j,
    {
        let ghost xl = x.take(i as int);
        let ghost yl = y.take(j as int);
        let ghost after = a@.skip(o as int);
        assert(Less::<T>::follows(&Natural, le));
        let both = i > 0;
        if i > 0 && Less::<T>::less_seen(&Natural, buf[j - 1], a[i - 1], hooks) {
            o -= 1;
            a[o] = a[i - 1];
            hooks.on_write(&*a, o);
            i -= 1;
            if i > 0 {
                hooks.on_read(&*a, i - 1);
            }
            proof {
                assert(xl.drop_last() =~= x.take(i as int));
                assert(merged_back(le, xl, yl) == merged_back(le, xl.drop_last(), yl).push(xl.last()));
            }
        } else {
            o -= 1;
            if !both {
                hooks.on_read(buf, j - 1);
            }
            a[o] = buf[j - 1];
            hooks.on_write(&*a, o);
            j -= 1;
            if both && j > 0 {
                hooks.on_read(buf, j - 1);
            }
            proof {
                assert(yl.drop_last() =~= y.take(j as int));
                if xl.len() == 0 {
                    assert(merged_back(le, xl, yl) =~= merged_back(le, xl, yl.drop_last()).push(yl.last()));
                }
                assert(merged_back(le, xl, yl) == merged_back(le, xl, yl.drop_last()).push(yl.last()));
            }
        }
        assert(a@.skip(o as int) =~= seq![a@[o as int]] + after);
        assert(merged_back(le, x.take(i as int), y.take(j as int)) + a@.skip(o as int) =~= merged_back(le, xl, yl) + after);
    }
    proof {
        assert(merged_back(le, x.take(i as int), y.take(j as int)) =~= x.take(i as int));
        assert(a@ =~= x.take(i as int) + a@.skip(o as int));
    }
}

/// Stable in-place merge of `a[0, mid)` and `a[mid, ..)` with a buffer of at
/// least as many elements as the shorter has: the shorter run is copied out and
/// the merge runs towards the free space, so the output never overtakes unread
/// input.
pub fn merge_with_buffer<T: Elem, H: Hooks>(a: &mut [T], buf: &mut [T], mid: usize, hooks: &mut H)
    requires
        mid <= old(a)@.len(),
        mid <= old(buf)@.len() || old(a)@.len() - mid <= old(buf)@.len(),
        sorted(elem_le::<T>(), old(a)@.take(mid as int)),
        sorted(elem_le::<T>(), old(a)@.skip(mid as int)),
    ensures
        keeps_record(*old(hooks), *final(hooks)),
        stable_sort_of(elem_le::<T>(), old(a)@, final(a)@),
        H::records() ==> final(hooks).tally() == merge_tally::<T, H>(old(hooks).tally(), old(a)@.take(mid as int), old(a)@.skip(mid as int)),
        final(a)@.len() == old(a)@.len(),
        final(buf)@.len() == old(buf)@.len(),
{
    let ghost le = elem_le::<T>();
    let ghost orig = a@;
    let n: usize = a.len();
    let len1: usize = mid;
    let len2: usize = n - mid;
    let ghost x = a@.take(mid as int);
    let ghost y = a@.skip(mid as int);
    proof {
        lemma_elem_le_total::<T>();
        lemma_merged(le, x, y);
        lemma_merges_equal(le, x, y);
        assert(x + y =~= orig);
        lemma_permutation_len(orig, merged(le, x, y));
    }
    if len1 == 0 || len2 == 0 {
        proof {
            assert(merged(le, x, y) =~= orig);
        }
        return;
    }
    if len1 <= len2 {
        copy_forward(a, 0, buf, 0, len1);
        note_copies(&*a, 0, &*buf, 0, len1, hooks);
        assert(buf@.take(mid as int) =~= x);
        merge_forward(a, buf, mid, hooks, Ghost(x), Ghost(y));
    } else {
        copy_forward(a, mid, buf, 0, len2);
        note_copies(&*a, mid, &*buf, 0, len2, hooks);
        assert(buf@.take(n - mid) =~= y);
        merge_backward(a, buf, mid, hooks, Ghost(x), Ghost(y));
    }
}

/// `b` is `a` with `a[lo, hi)` sorted.
spec fn range_sorted<T: Elem>(a: Seq<T>, b: Seq<T>, lo: int, hi: int) -> bool {
    &&& 0 <= lo <= hi <= a.len()
    &&& b.len() == a.len()
    &&& stable_sort_of(elem_le::<T>(), a.subrange(lo, hi), b.subrange(lo, hi))
    &&& forall|k: int| 0 <= k < lo || hi <= k < a.len() ==> #[trigger] b[k] == a[k]
}

proof fn lemma_range_stable<T: Elem>(a: Seq<T>, b: Seq<T>, lo: int, hi: int)
    requires
        range_sorted(a, b, lo, hi),
    ensures
        stable(elem_le::<T>(), a, b),
        permutation(a, b),
{
    let le = elem_le::<T>();
    let (l, m, r) = (a.take(lo), a.subrange(lo, hi), a.skip(hi));
    lemma_stable_add(le, l, m, l, b.subrange(lo, hi));
    lemma_stable_add(le, l + m, r, l + b.subrange(lo, hi), r);
    assert((l + m) + r =~= a);
    assert((l + b.subrange(lo, hi)) + r =~= b);
    lemma_elem_le_total::<T>();
    lemma_stable_permutation(le, a, b);
}

/// Merges the sorted `a[lo, mid)` and `a[mid, hi)` in place.
fn merge_range<T: Elem, H: Hooks>(a: &mut [T], buf: &mut [T], lo: usize, mid: usize, hi: usize, hooks: &mut H)
    requires
        lo <= mid <= hi <= old(a)@.len(),
        old(buf)@.len() > old(a)@.len() / 2,
        sorted(elem_le::<T>(), old(a)@.subrange(lo as int, mid as int)),
        sorted(elem_le::<T>(), old(a)@.subrange(mid as int, hi as int)),
    ensures
        keeps_record(*old(hooks), *final(hooks)),
        range_sorted(old(a)@, final(a)@, lo as int, hi as int),
        H::records() ==> final(hooks).tally() == merge_tally::<T, H>(old(hooks).tally(), old(a)@.subrange(lo as int, mid as int), old(a)@.subrange(mid as int, hi as int)),
        final(buf)@.len() == old(buf)@.len(),
{
    let ghost o = a@;
    let (l, r) = a.split_at_mut(lo);
    let (m, e) = r.split_at_mut(hi - lo);
    assert(m@.take(mid - lo) =~= o.subrange(lo as int, mid as int));
    assert(m@.skip(mid - lo) =~= o.subrange(mid as int, hi as int));
    merge_with_buffer(m, buf, mid - lo, hooks);
    assert((l@ + (m@ + e@)).subrange(lo as int, hi as int) =~= m@);
    assert(o.subrange(lo as int, o.len() as int).subrange(0, hi - lo) =~= o.subrange(lo as int, hi as int));
}

/// Turns a strictly falling run around.
proof fn lemma_falling_reversed<T: Elem>(a: Seq<T>, lo: int, hi: int)
    requires
        0 <= lo <= hi <= a.len(),
        falling(elem_le::<T>(), a, lo, hi),
    ensures
        stable_sort_of(elem_le::<T>(), a.subrange(lo, hi), a.subrange(lo, hi).reverse()),
    decreases hi - lo,
{
    let le = elem_le::<T>();
    lemma_elem_le_total::<T>();
    let s = a.subrange(lo, hi);
    if lo < hi {
        lemma_falling_reversed(a, lo + 1, hi);
        let one = seq![a[lo]];
        let t = a.subrange(lo + 1, hi);
        assert(s =~= one + t);
        assert(s.reverse() =~= t.reverse() + one);
        assert forall|i: int| 0 <= i < t.len() implies !le(a[lo], #[trigger] t[i]) by {
            lemma_falling_less(a, lo, hi, lo + 1 + i);
        }
        lemma_stable_swap(le, one, t);
        lemma_stable_add(le, t, one, t.reverse(), one);
        lemma_stable_trans(le, one + t, t + one, t.reverse() + one);
        lemma_stable_permutation(le, s, s.reverse());
        assert forall|i: int, j: int| 0 <= i < t.reverse().len() && 0 <= j < one.len() implies le(#[trigger] t.reverse()[i], #[trigger] one[j]) by {
            let k = t.len() - 1 - i;
            assert(!le(a[lo], t[k]));
            assert(le(t[k], a[lo]) || le(a[lo], t[k]));
        }
        assert(le(a[lo], a[lo]));
        lemma_sorted_add(le, t.reverse(), one);
    } else {
        assert(s =~= s.reverse());
    }
}

proof fn lemma_falling_less<T: Elem>(a: Seq<T>, lo: int, hi: int, i: int)
    requires
        0 <= lo < i < hi <= a.len(),
        falling(elem_le::<T>(), a, lo, hi),
    ensures
        !elem_le::<T>()(a[lo], a[i]),
    decreases i - lo,
{
    let le = elem_le::<T>();
    lemma_elem_le_total::<T>();
    assert(descent(le, a, i));
    if i > lo + 1 {
        lemma_falling_less(a, lo, hi, i - 1);
        if le(a[lo], a[i]) {
            assert(le(a[i], a[i - 1]) || le(a[i - 1], a[i]));
            assert(le(a[lo], a[i]) && le(a[i], a[i - 1]));
        }
    }
}

proof fn lemma_rising_sorted<T: Elem>(a: Seq<T>, lo: int, hi: int)
    requires
        0 <= lo <= hi <= a.len(),
        rising(elem_le::<T>(), a, lo, hi),
    ensures
        sorted(elem_le::<T>(), a.subrange(lo, hi)),
    decreases hi - lo,
{
    let le = elem_le::<T>();
    lemma_elem_le_total::<T>();
    let s = a.subrange(lo, hi);
    if lo < hi {
        lemma_rising_sorted(a, lo, hi - 1);
        let t = a.subrange(lo, hi - 1);
        assert forall|i: int, j: int| 0 <= i <= j < s.len() implies le(#[trigger] s[i], #[trigger] s[j]) by {
            if j < t.len() {
                assert(le(t[i], t[j]));
            } else if i < j {
                assert(!descent(le, a, hi - 1));
                assert(le(t[i], t[t.len() - 1]));
                assert(le(a[lo + i], a[hi - 2]) && le(a[hi - 2], a[hi - 1]));
            } else {
                assert(le(s[i], s[i]));
            }
        }
    }
}

proof fn lemma_runs_in_order<T: Elem>(a: Seq<T>, r: ScoutResult, j: int)
    requires
        has_runs(elem_le::<T>(), a, r),
        0 <= j < r.runs,
    ensures
        r.bound[j] < r.bound[j + 1] <= a.len(),
        r.dir[j] == 1 || r.dir[j] == -1,
        r.dir[j] == 1 ==> rising(elem_le::<T>(), a, r.bound[j] as int, r.bound[j + 1] as int),
        r.dir[j] == -1 ==> falling(elem_le::<T>(), a, r.bound[j] as int, r.bound[j + 1] as int),
    decreases r.runs - j,
{
    if j < r.runs - 1 {
        assert(closed_run(elem_le::<T>(), a, r.bound[j] as int, r.bound[j + 1] as int, r.dir[j]));
        lemma_runs_in_order(a, r, j + 1);
    }
}

/// A handful of monotone runs, with the bounds the scout recorded (ascending
/// is non-decreasing, descending strictly decreasing, so reversing a descending
/// run in place keeps stability). No second detection pass. The buffer (n/2,
/// the most any merge needs) is allocated first. Merges go pairwise, from the
/// shorter side.
#[verifier::rlimit(40)]
pub fn sort_few_runs<T: Elem, M: Alloc, H: Hooks>(a: &mut [T], scratch: &mut Scratch<T, M, H>, s: &ScoutResult) -> (r: Result<(), AllocError>)
    requires
        old(scratch).base() >= 0,
        0 < old(a)@.len(),
        has_runs(elem_le::<T>(), old(a)@, *s),
    ensures
        keeps_record(old(scratch).tools.hooks, final(scratch).tools.hooks),
        r is Ok ==> stable_sort_of(elem_le::<T>(), old(a)@, final(a)@) && final(scratch).refusals() == old(scratch).refusals(),
        r is Ok && H::records() ==> final(scratch).tools.hooks.tally() == few_runs_tally::<T, H>(old(scratch).tools.hooks.tally(), old(a)@),
        r is Ok ==> retold_trail(trail(*final(scratch)), old(scratch).tools.hooks.tally()) == buffer_for::<T, H::Tally>(trail(*old(scratch)), old(a)@.len() / 2 + 1),
        r is Err ==> final(a)@ == old(a)@ && final(scratch).refusals() > old(scratch).refusals(),
        old(scratch).buf@.len() > old(a)@.len() / 2 ==> r is Ok && final(scratch).tools.mem == old(scratch).tools.mem,
        old(scratch).buf@.len() <= old(a)@.len() / 2 ==> final(scratch).tools.mem.asked() == asks_for::<T>(old(scratch).tools.mem.asked(), old(a)@.len() / 2 + 1),
        old(scratch).buf@.len() <= old(a)@.len() / 2 && too_large::<T>(old(a)@.len() / 2 + 1) ==> r is Err,
        final(scratch).base() == old(scratch).base(),
        final(a)@.len() == old(a)@.len(),
        final(scratch).tools.machine == old(scratch).tools.machine,
{
    let ghost le = elem_le::<T>();
    let ghost orig = a@;
    let n: usize = a.len();
    match scratch.ensure(a[0], n / 2 + 1) {
        Ok(_) => {},
        Err(e) => {
            return Err(e);
        },
    }
    let runs: usize = s.runs;
    let ghost begun = scratch.tools.hooks.tally();
    let ghost room = trail(*scratch);
    let mut j: usize = 0;
    proof {
        lemma_elem_le_total::<T>();
    }
    while j < runs
        invariant
            keeps_record(old(scratch).tools.hooks, scratch.tools.hooks),
            j <= runs == s.runs,
            runs <= MAX_RUNS,
            n == a@.len() == orig.len(),
            le == elem_le::<T>(),
            has_runs(le, orig, *s),
            stable(le, orig, a@),
            permutation(orig, a@),
            forall|q: int| 0 <= q < j ==> sorted(le, a@.subrange((#[trigger] s.bound[q]) as int, s.bound[q + 1] as int)),
            forall|k: int| s.bound[j as int] <= k < n ==> a@[k] == orig[k],
            forall|q: int| 0 <= q < j ==> stable_sort_of(le, orig.subrange((#[trigger] s.bound[q]) as int, s.bound[q + 1] as int), a@.subrange(s.bound[q] as int, s.bound[q + 1] as int)),
            H::records() ==> scratch.tools.hooks.tally() == turn_tally::<H>(begun, *s, j as int),
            scratch.buf@.len() > n / 2,
            room == buffer_for::<T, H::Tally>(trail(*old(scratch)), (n / 2 + 1) as nat),
            retold_trail(trail(*scratch), begun) == room,
            begun == old(scratch).tools.hooks.tally(),
            scratch.refusals() == old(scratch).refusals(),
            old(scratch).buf@.len() > n / 2 ==> scratch.tools.mem == old(scratch).tools.mem,
            old(scratch).buf@.len() <= n / 2 ==> scratch.tools.mem.asked() == asks_for::<T>(old(scratch).tools.mem.asked(), (n / 2 + 1) as nat),
            scratch.base() == old(scratch).base(),
            scratch.base() >= 0,
            scratch.tools.machine == old(scratch).tools.machine,
        decreases runs - j,
    {
        let lo: usize = s.bound[j];
        let hi: usize = s.bound[j + 1];
        let ghost b = a@;
        proof {
            lemma_runs_in_order(orig, *s, j as int);
            assert(b.subrange(lo as int, hi as int) =~= orig.subrange(lo as int, hi as int));
        }
        if s.dir[j] < 0 {
            reverse_range(a, lo, hi);
            note_turned(&*a, lo, hi, &mut scratch.tools.hooks);
            proof {
                lemma_falling_reversed(orig, lo as int, hi as int);
                assert(a@.subrange(lo as int, hi as int) =~= orig.subrange(lo as int, hi as int).reverse());
                lemma_range_stable(b, a@, lo as int, hi as int);
                lemma_stable_trans(le, orig, b, a@);
            }
        } else {
            proof {
                lemma_rising_sorted(orig, lo as int, hi as int);
                assert(stable_sort_of(le, orig.subrange(lo as int, hi as int), a@.subrange(lo as int, hi as int)));
            }
        }
        proof {
            assert forall|q: int| 0 <= q < j + 1 implies stable_sort_of(
                le,
                orig.subrange((#[trigger] s.bound[q]) as int, s.bound[q + 1] as int),
                a@.subrange(s.bound[q] as int, s.bound[q + 1] as int),
            ) by {
                lemma_runs_in_order(orig, *s, q);
                if q < j {
                    lemma_run_before(orig, *s, q, j as int);
                    assert(a@.subrange(s.bound[q] as int, s.bound[q + 1] as int) =~= b.subrange(s.bound[q] as int, s.bound[q + 1] as int));
                }
            }
            assert forall|q: int| 0 <= q < j + 1 implies sorted(le, a@.subrange((#[trigger] s.bound[q]) as int, s.bound[q + 1] as int)) by {
                lemma_runs_in_order(orig, *s, q);
                if q < j {
                    lemma_run_before(orig, *s, q, j as int);
                    assert(sorted(le, b.subrange(s.bound[q] as int, s.bound[q + 1] as int)));
                    assert(a@.subrange(s.bound[q] as int, s.bound[q + 1] as int) =~= b.subrange(s.bound[q] as int, s.bound[q + 1] as int));
                }
            }
        }
        j += 1;
    }
    let ghost b = a@;
    let ghost bd = |j: int| s.bound[j] as int;
    proof {
        lemma_told_runs::<T, H>(begun, orig, *s, choose|r: ScoutResult| has_runs(le, orig, r));
    }
    if runs == 1 {
        assert(b.subrange(s.bound[0] as int, s.bound[0int + 1] as int) =~= b);
        return Ok(());
    }
    proof {
        lemma_runs_in_order(orig, *s, 0);
        lemma_runs_in_order(orig, *s, 1);
        assert(sorted(le, b.subrange(s.bound[0] as int, s.bound[0int + 1] as int)));
        assert(sorted(le, b.subrange(s.bound[1] as int, s.bound[1int + 1] as int)));
        assert(stable_sort_of(le, orig.subrange(s.bound[0] as int, s.bound[0int + 1] as int), b.subrange(s.bound[0] as int, s.bound[0int + 1] as int)));
        assert(stable_sort_of(le, orig.subrange(s.bound[1] as int, s.bound[1int + 1] as int), b.subrange(s.bound[1] as int, s.bound[1int + 1] as int)));
        lemma_sorted_part(orig, bd(0), bd(1), b.subrange(bd(0), bd(1)));
        lemma_sorted_part(orig, bd(1), bd(2), b.subrange(bd(1), bd(2)));
    }
    merge_range(a, &mut scratch.buf, s.bound[0], s.bound[1], s.bound[2], &mut scratch.tools.hooks);
    let ghost c = a@;
    proof {
        lemma_range_stable(b, c, s.bound[0] as int, s.bound[2] as int);
        lemma_parts_merged(orig, b, c, bd(0), bd(1), bd(2));
        lemma_sorted_part(orig, bd(0), bd(2), c.subrange(bd(0), bd(2)));
        lemma_stable_trans(le, orig, b, c);
    }
    if runs == 2 {
        assert(c.subrange(0, n as int) =~= c);
        return Ok(());
    }
    proof {
        lemma_runs_in_order(orig, *s, 2);
        assert(sorted(le, b.subrange(s.bound[2] as int, s.bound[2int + 1] as int)));
        assert(c.subrange(s.bound[2] as int, s.bound[3] as int) =~= b.subrange(s.bound[2] as int, s.bound[3] as int));
        assert(stable_sort_of(le, orig.subrange(s.bound[2] as int, s.bound[2int + 1] as int), b.subrange(s.bound[2] as int, s.bound[2int + 1] as int)));
        lemma_sorted_part(orig, bd(2), bd(3), c.subrange(bd(2), bd(3)));
    }
    if runs == 3 {
        merge_range(a, &mut scratch.buf, s.bound[0], s.bound[2], s.bound[3], &mut scratch.tools.hooks);
        proof {
            lemma_range_stable(c, a@, s.bound[0] as int, s.bound[3] as int);
            lemma_stable_trans(le, orig, c, a@);
            assert(a@.subrange(0, n as int) =~= a@);
        }
        return Ok(());
    }
    proof {
        lemma_runs_in_order(orig, *s, 3);
        assert(sorted(le, b.subrange(s.bound[3] as int, s.bound[3int + 1] as int)));
        assert(c.subrange(s.bound[3] as int, s.bound[4] as int) =~= b.subrange(s.bound[3] as int, s.bound[4] as int));
        assert(stable_sort_of(le, orig.subrange(s.bound[3] as int, s.bound[3int + 1] as int), b.subrange(s.bound[3] as int, s.bound[3int + 1] as int)));
        lemma_sorted_part(orig, bd(3), bd(4), c.subrange(bd(3), bd(4)));
    }
    merge_range(a, &mut scratch.buf, s.bound[2], s.bound[3], s.bound[4], &mut scratch.tools.hooks);
    let ghost d = a@;
    proof {
        lemma_range_stable(c, d, s.bound[2] as int, s.bound[4] as int);
        lemma_stable_trans(le, orig, c, d);
        assert(d.subrange(s.bound[0] as int, s.bound[2] as int) =~= c.subrange(s.bound[0] as int, s.bound[2] as int));
        lemma_parts_merged(orig, c, d, bd(2), bd(3), bd(4));
        lemma_sorted_part(orig, bd(2), bd(4), d.subrange(bd(2), bd(4)));
    }
    merge_range(a, &mut scratch.buf, s.bound[0], s.bound[2], s.bound[4], &mut scratch.tools.hooks);
    proof {
        lemma_range_stable(d, a@, s.bound[0] as int, s.bound[4] as int);
        lemma_stable_trans(le, orig, d, a@);
        assert(a@.subrange(0, n as int) =~= a@);
    }
    Ok(())
}

proof fn lemma_run_before<T: Elem>(a: Seq<T>, r: ScoutResult, q: int, j: int)
    requires
        has_runs(elem_le::<T>(), a, r),
        0 <= q < j < r.runs,
    ensures
        r.bound[q + 1] <= r.bound[j],
    decreases j - q,
{
    if q + 1 < j {
        lemma_runs_in_order(a, r, q + 1);
        lemma_run_before(a, r, q + 1, j);
    }
}

} // verus!
