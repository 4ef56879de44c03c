//! Sorted input, and non-increasing input reversed in place with equal keys
//! kept in their original order.
use crate::algorithm::MAX_RUNS;
use crate::algorithm::scout::{
    ascents_to, closed_run, descent, descents_to, has_runs, lemma_descents_nonneg,
    lemma_no_ascents, runs_to, ScoutResult,
};
use crate::compare::{all_taken, loaded, ordered_by, Compare};
use crate::less::{Less, Natural};
use crate::order::{
    lemma_permutation_add, lemma_permutation_member, lemma_permutation_swap, lemma_sorted_add,
    lemma_stable_add, lemma_stable_permutation, lemma_stable_swap, lemma_stable_trans,
    permutation, sorted, stable_sort_of, tied, total_preorder, untied,
};
use crate::view::{
    after_swaps, elem_le, keeps_record, lemma_elem_le_total, note_turned, reverse_range, Elem,
    Hooks, Note,
};
use vstd::prelude::*;

verus! {

/// Reverses `a` in place.
pub fn reverse_all<T, H: Hooks>(a: &mut [T], hooks: &mut H)
    ensures
        keeps_record(*old(hooks), *final(hooks)),
        final(a)@ == old(a)@.reverse(),
        H::records() ==> final(hooks).tally() == after_swaps::<H>(old(hooks).tally(), old(a)@.len() as int / 2),
{
    let ghost o = a@;
    let n: usize = a.len();
    reverse_range(a, 0, n);
    note_turned(&*a, 0, n, hooks);
    assert(o.subrange(0, n as int) =~= o);
    assert(a@ =~= o.reverse());
}

/// `a[lo, hi)` is a largest range of tied elements, where nothing ascends.
pub open spec fn tie_group<T>(le: spec_fn(T, T) -> bool, a: Seq<T>, lo: int, hi: int) -> bool {
    &&& 0 <= lo < hi <= a.len()
    &&& forall|i: int| lo < i < hi ==> !#[trigger] descent(le, a, i)
    &&& lo > 0 ==> descent(le, a, lo)
    &&& hi < a.len() ==> descent(le, a, hi)
}

/// Every element is not greater than those before it.
pub open spec fn non_increasing<T>(le: spec_fn(T, T) -> bool, a: Seq<T>) -> bool {
    forall|i: int, j: int| 0 <= i <= j < a.len() ==> le(#[trigger] a[j], #[trigger] a[i])
}

/// The group stands in `b` where the reversal puts it, in its original order.
pub open spec fn group_kept<T>(a: Seq<T>, b: Seq<T>, lo: int, hi: int) -> bool {
    forall|k: int| lo <= k < hi ==> b[a.len() - hi + (k - lo)] == #[trigger] a[k]
}

/// The group stands in `b` where the reversal puts it, reversed.
pub open spec fn group_turned<T>(a: Seq<T>, b: Seq<T>, lo: int, hi: int) -> bool {
    forall|k: int| lo <= k < hi ==> b[a.len() - 1 - k] == #[trigger] a[k]
}

/// The elements of a group are tied.
proof fn lemma_group_tied<T>(le: spec_fn(T, T) -> bool, a: Seq<T>, lo: int, hi: int, i: int, j: int)
    requires
        total_preorder(le),
        tie_group(le, a, lo, hi),
        lo <= i <= j < hi,
    ensures
        le(a[i], a[j]),
    decreases j - i,
{
    if i < j {
        lemma_group_tied(le, a, lo, hi, i, j - 1);
        assert(!descent(le, a, j));
        assert(le(a[i], a[j - 1]) && le(a[j - 1], a[j]));
    } else {
        assert(le(a[i], a[i]));
    }
}

/// Reversing all but the order within the groups sorts stably, from element `m`
/// on.
proof fn lemma_groups_sort<T>(le: spec_fn(T, T) -> bool, a: Seq<T>, b: Seq<T>, m: int)
    requires
        total_preorder(le),
        non_increasing(le, a),
        b.len() == a.len(),
        0 <= m <= a.len(),
        0 < m < a.len() ==> descent(le, a, m),
        forall|lo: int, hi: int| #[trigger] tie_group(le, a, lo, hi) ==> group_kept(a, b, lo, hi),
    ensures
        stable_sort_of(le, a.skip(m), b.take(a.len() - m)),
    decreases a.len() - m,
{
    let n = a.len() as int;
    if m == n {
        assert(a.skip(m) =~= b.take(n - m));
    } else {
        let hi = lemma_group_end(le, a, m, m + 1);
        lemma_groups_sort(le, a, b, hi);
        let g = a.subrange(m, hi);
        let rest = a.skip(hi);
        let done = b.take(n - hi);
        assert(a.skip(m) =~= g + rest);
        assert(group_kept(a, b, m, hi));
        assert(b.take(n - m) =~= done + g) by {
            assert forall|k: int| n - hi <= k < n - m implies b[k] == g[k - (n - hi)] by {
                let q = m + (k - (n - hi));
                assert(b[n - hi + (q - m)] == a[q]);
            }
        }
        assert(untied(le, g, rest)) by {
            assert forall|i: int, j: int| 0 <= i < g.len() && 0 <= j < rest.len() implies !tied(le, #[trigger] g[i], #[trigger] rest[j]) by {
                assert(descent(le, a, hi));
                assert(le(a[hi - 1], a[m + i]));
                assert(le(a[hi + j], a[hi]));
                if le(g[i], rest[j]) {
                    assert(le(a[hi - 1], a[m + i]) && le(a[m + i], a[hi + j]));
                    assert(le(a[hi - 1], a[hi + j]) && le(a[hi + j], a[hi]));
                }
            }
        }
        lemma_stable_swap(le, g, rest);
        lemma_stable_add(le, rest, g, done, g);
        lemma_stable_trans(le, g + rest, rest + g, done + g);
        lemma_stable_permutation(le, g + rest, done + g);
        assert(sorted(le, g)) by {
            assert forall|i: int, j: int| 0 <= i <= j < g.len() implies le(#[trigger] g[i], #[trigger] g[j]) by {
                lemma_group_tied(le, a, m, hi, m + i, m + j);
            }
        }
        assert forall|i: int, j: int| 0 <= i < done.len() && 0 <= j < g.len() implies le(#[trigger] done[i], #[trigger] g[j]) by {
            let k = lemma_permutation_member(done, rest, i);
            assert(le(a[hi + k], a[m + j]));
        }
        lemma_sorted_add(le, done, g);
    }
}

proof fn lemma_group_end<T>(le: spec_fn(T, T) -> bool, a: Seq<T>, m: int, k: int) -> (hi: int)
    requires
        0 <= m < k <= a.len(),
        m > 0 ==> descent(le, a, m),
        forall|i: int| m < i < k ==> !#[trigger] descent(le, a, i),
    ensures
        tie_group(le, a, m, hi),
        k <= hi,
    decreases a.len() - k,
{
    if k == a.len() || descent(le, a, k) {
        k
    } else {
        lemma_group_end(le, a, m, k + 1)
    }
}

/// Different groups do not overlap.
proof fn lemma_groups_apart<T>(le: spec_fn(T, T) -> bool, a: Seq<T>, l1: int, h1: int, l2: int, h2: int)
    requires
        tie_group(le, a, l1, h1),
        tie_group(le, a, l2, h2),
    ensures
        (l1 == l2 && h1 == h2) || h1 <= l2 || h2 <= l1,
{
    if l1 < l2 && l2 < h1 {
        assert(!descent(le, a, l2));
    }
    if l2 < l1 && l1 < h2 {
        assert(!descent(le, a, l1));
    }
    if l1 == l2 {
        if h1 < h2 {
            assert(!descent(le, a, h1));
        }
        if h2 < h1 {
            assert(!descent(le, a, h2));
        }
    }
}

proof fn lemma_all_descents<T>(le: spec_fn(T, T) -> bool, a: Seq<T>, n: int, i: int)
    requires
        0 < i < n,
        descents_to(le, a, n) == n - 1,
    ensures
        descent(le, a, i),
    decreases n,
{
    lemma_descents_nonneg(le, a, n - 1);
    if i < n - 1 {
        lemma_all_descents(le, a, n - 1, i);
    }
}

/// The tie group that run `j` of a non-increasing sequence stands for: a
/// non-decreasing run consists of equal keys, together with the tie that ended a
/// decreasing run before it; two decreasing runs meet at a tie pair.
pub open spec fn run_group(r: ScoutResult, j: int) -> Option<(int, int)> {
    if r.dir[j] > 0 {
        Some(
            (
                if j > 0 && r.dir[j - 1] < 0 {
                    r.bound[j] - 1
                } else {
                    r.bound[j] as int
                },
                r.bound[j + 1] as int,
            ),
        )
    } else if j + 1 < r.runs && r.dir[j + 1] < 0 {
        Some((r.bound[j + 1] - 1, r.bound[j + 1] + 1))
    } else {
        None
    }
}

proof fn lemma_bounds<T>(le: spec_fn(T, T) -> bool, a: Seq<T>, r: ScoutResult, i: int, j: int)
    requires
        has_runs(le, a, r),
        0 <= i < j <= r.runs,
    ensures
        r.bound[i] < r.bound[j],
        j < r.runs ==> r.bound[i] + 2 <= r.bound[j],
        r.bound[j] <= a.len(),
    decreases j - i,
{
    if i + 1 < j {
        lemma_bounds(le, a, r, i, j - 1);
    }
    assert(j - 1 < r.runs - 1 ==> closed_run(le, a, r.bound[j - 1] as int, r.bound[j - 1 + 1] as int, r.dir[j - 1]));
    lemma_bound_inside(le, a, r, j);
}

proof fn lemma_bound_inside<T>(le: spec_fn(T, T) -> bool, a: Seq<T>, r: ScoutResult, j: int)
    requires
        has_runs(le, a, r),
        0 <= j <= r.runs,
    ensures
        r.bound[j] <= a.len(),
    decreases r.runs - j,
{
    if j < r.runs - 1 {
        assert(closed_run(le, a, r.bound[j] as int, r.bound[j + 1] as int, r.dir[j]));
        lemma_bound_inside(le, a, r, j + 1);
    }
}

/// Every group that a run stands for is one.
proof fn lemma_run_group<T>(le: spec_fn(T, T) -> bool, a: Seq<T>, r: ScoutResult, j: int)
    requires
        has_runs(le, a, r),
        0 <= j < r.runs,
        run_group(r, j) is Some,
    ensures
        tie_group(le, a, (run_group(r, j)->0).0, (run_group(r, j)->0).1),
{
    let (lo, hi) = run_group(r, j)->0;
    lemma_bounds(le, a, r, j, j + 1);
    if j > 0 {
        lemma_bounds(le, a, r, j - 1, j);
        assert(closed_run(le, a, r.bound[j - 1] as int, r.bound[j - 1 + 1] as int, r.dir[j - 1]));
    }
    if j < r.runs - 1 {
        assert(closed_run(le, a, r.bound[j] as int, r.bound[j + 1] as int, r.dir[j]));
        lemma_bounds(le, a, r, j + 1, j + 2);
        if j + 1 < r.runs - 1 {
            assert(closed_run(le, a, r.bound[j + 1] as int, r.bound[j + 1 + 1] as int, r.dir[j + 1]));
        }
    }
    if r.dir[j] > 0 {
        if j > 0 && r.dir[j - 1] < 0 {
            assert(!descent(le, a, r.bound[j] as int));
            assert(descent(le, a, r.bound[j] - 1));
            assert forall|i: int| lo < i < hi implies !#[trigger] descent(le, a, i) by {
                if i > r.bound[j] {
                }
            }
        }
    } else {
        let b = r.bound[j + 1] as int;
        assert(!descent(le, a, b));
        assert(descent(le, a, b - 1));
        assert(descent(le, a, b + 1) || b + 1 == a.len());
    }
}

/// Every group of two or more is one that a run stands for.
proof fn lemma_group_run<T>(le: spec_fn(T, T) -> bool, a: Seq<T>, r: ScoutResult, lo: int, hi: int) -> (j: int)
    requires
        has_runs(le, a, r),
        tie_group(le, a, lo, hi),
        lo + 2 <= hi,
    ensures
        0 <= j < r.runs,
        run_group(r, j) == Some((lo, hi)),
{
    let p = lo + 1;
    assert(!descent(le, a, p));
    let j = lemma_run_of(le, a, r, p, 0);
    lemma_bounds(le, a, r, j, j + 1);
    if j > 0 {
        lemma_bounds(le, a, r, j - 1, j);
        assert(closed_run(le, a, r.bound[j - 1] as int, r.bound[j - 1 + 1] as int, r.dir[j - 1]));
    }
    if j < r.runs - 1 {
        assert(closed_run(le, a, r.bound[j] as int, r.bound[j + 1] as int, r.dir[j]));
    }
    if p > r.bound[j] {
        assert(r.dir[j] == 1);
        lemma_run_group(le, a, r, j);
        let (l, h) = run_group(r, j)->0;
        lemma_groups_apart(le, a, lo, hi, l, h);
        j
    } else {
        assert(p == r.bound[j]);
        assert(r.dir[j - 1] == -1);
        if r.dir[j] > 0 {
            lemma_run_group(le, a, r, j);
            let (l, h) = run_group(r, j)->0;
            lemma_groups_apart(le, a, lo, hi, l, h);
            j
        } else {
            lemma_run_group(le, a, r, j - 1);
            let (l, h) = run_group(r, j - 1)->0;
            lemma_groups_apart(le, a, lo, hi, l, h);
            j - 1
        }
    }
}

proof fn lemma_run_of<T>(le: spec_fn(T, T) -> bool, a: Seq<T>, r: ScoutResult, p: int, j: int) -> (k: int)
    requires
        has_runs(le, a, r),
        0 <= j < r.runs,
        r.bound[j] <= p < a.len(),
    ensures
        0 <= k < r.runs,
        r.bound[k] <= p < r.bound[k + 1],
    decreases r.runs - j,
{
    if p < r.bound[j + 1] {
        j
    } else {
        lemma_run_of(le, a, r, p, j + 1)
    }
}

/// Reversing the image of a turned group restores its order and leaves the
/// other groups alone.
proof fn lemma_turn_back<T>(le: spec_fn(T, T) -> bool, a: Seq<T>, b: Seq<T>, b2: Seq<T>, lo: int, hi: int)
    requires
        tie_group(le, a, lo, hi),
        b.len() == a.len(),
        group_turned(a, b, lo, hi),
        b2 == b.take(a.len() - hi) + b.subrange(a.len() - hi, a.len() - lo).reverse() + b.skip(a.len() - lo),
    ensures
        b2.len() == a.len(),
        group_kept(a, b2, lo, hi),
        forall|l: int, h: int| #[trigger] tie_group(le, a, l, h) && !(l == lo && h == hi) ==> (group_kept(a, b, l, h) ==> group_kept(a, b2, l, h)) && (group_turned(a, b, l, h) ==> group_turned(a, b2, l, h)),
{
    let n = a.len() as int;
    assert forall|k: int| lo <= k < hi implies b2[n - hi + (k - lo)] == #[trigger] a[k] by {
        assert(b2[n - hi + (k - lo)] == b[n - 1 - k]);
    }
    assert forall|l: int, h: int| #[trigger] tie_group(le, a, l, h) && !(l == lo && h == hi) implies (group_kept(a, b, l, h) ==> group_kept(a, b2, l, h)) && (group_turned(a, b, l, h)
        ==> group_turned(a, b2, l, h)) by {
        lemma_groups_apart(le, a, lo, hi, l, h);
        assert forall|q: int| n - h <= q < n - l implies b2[q] == b[q] by {}
        if group_kept(a, b, l, h) {
            assert forall|k: int| l <= k < h implies b2[n - h + (k - l)] == #[trigger] a[k] by {
                assert(b[n - h + (k - l)] == a[k]);
            }
        }
        if group_turned(a, b, l, h) {
            assert forall|k: int| l <= k < h implies b2[n - 1 - k] == #[trigger] a[k] by {
                assert(b[n - 1 - k] == a[k]);
            }
        }
    }
}

/// The record once the tie groups that the first `j` runs stand for were turned
/// back.
pub open spec fn runs_tally<H: Hooks>(t: H::Tally, r: ScoutResult, j: int) -> H::Tally
    decreases j,
{
    if j <= 0 {
        t
    } else {
        let u = runs_tally::<H>(t, r, j - 1);
        match run_group(r, j - 1) {
            Some((lo, hi)) => after_swaps::<H>(u, (hi - lo) / 2),
            None => u,
        }
    }
}

/// The first element from `j` on that does not tie with element `i`, or the end.
pub open spec fn tie_end<T>(le: spec_fn(T, T) -> bool, s: Seq<T>, i: int, j: int) -> int
    decreases s.len() - j,
{
    if j >= s.len() || !le(s[j], s[i]) || !le(s[i], s[j]) {
        j
    } else {
        tie_end(le, s, i, j + 1)
    }
}

/// The record once the elements from `j` on were compared with element `i`, up to
/// the first that does not tie.
pub open spec fn tie_tally<T, C: Compare<T>, H: Hooks>(c: &C, le: spec_fn(T, T) -> bool, t: H::Tally, s: Seq<T>, i: int, j: int) -> H::Tally
    decreases s.len() - j,
{
    if j >= s.len() {
        t
    } else {
        let lt = !le(s[j], s[i]);
        let gt = !le(s[i], s[j]);
        let once = H::after(loaded::<H>(H::after(t, Note::Read), c.loads(s[i], s[j])), Note::Compare(lt));
        let twice = if lt {
            once
        } else {
            H::after(loaded::<H>(once, c.loads(s[j], s[i])), Note::Compare(gt))
        };
        if lt || gt {
            twice
        } else {
            tie_tally::<T, C, H>(c, le, twice, s, i, j + 1)
        }
    }
}

/// The record once the tie groups from `i` on were found and turned back.
pub open spec fn groups_tally<T, C: Compare<T>, H: Hooks>(c: &C, le: spec_fn(T, T) -> bool, t: H::Tally, s: Seq<T>, i: int) -> H::Tally
    decreases s.len() - i,
{
    let e = tie_end(le, s, i, i + 1);
    if i >= s.len() || e <= i || e > s.len() {
        t
    } else {
        let u = tie_tally::<T, C, H>(c, le, H::after(t, Note::Read), s, i, i + 1);
        groups_tally::<T, C, H>(
            c,
            le,
            if e - i > 1 {
                after_swaps::<H>(u, (e - i) / 2)
            } else {
                u
            },
            s,
            e,
        )
    }
}

/// The record once a range without an ascent was turned round: the whole of it,
/// then its tie groups, which a few runs tell and a scan finds otherwise.
pub open spec fn reverse_tally<T: Elem, H: Hooks>(t: H::Tally, a: Seq<T>) -> H::Tally {
    let le = elem_le::<T>();
    let n = a.len() as int;
    let turned = after_swaps::<H>(t, n / 2);
    if descents_to(le, a, n) == n - 1 {
        turned
    } else if runs_to(le, a, n).0 <= MAX_RUNS {
        let r = choose|r: ScoutResult| has_runs(le, a, r);
        runs_tally::<H>(turned, r, r.runs as int)
    } else {
        groups_tally::<T, Natural, H>(&Natural, le, turned, a.reverse(), 0)
    }
}

/// The runs of a sequence are told in one way.
pub proof fn lemma_runs_unique<T>(le: spec_fn(T, T) -> bool, a: Seq<T>, r: ScoutResult, q: ScoutResult, j: int)
    requires
        has_runs(le, a, r),
        has_runs(le, a, q),
        0 <= j <= r.runs,
    ensures
        j <= q.runs,
        j == r.runs ==> r.runs == q.runs,
        forall|k: int| 0 <= k <= j ==> #[trigger] r.bound[k] == q.bound[k],
        forall|k: int| 0 <= k < j && a.len() > r.bound[k] + 1 ==> #[trigger] r.dir[k] == q.dir[k],
    decreases j,
{
    if j > 0 {
        let i = j - 1;
        lemma_runs_unique(le, a, r, q, i);
        lemma_bounds(le, a, r, i, j);
        if i >= q.runs {
            assert(q.bound[q.runs as int] == a.len());
            assert(r.bound[q.runs as int] == a.len());
        }
        lemma_bounds(le, a, q, i, j);
        let lo = r.bound[i] as int;
        let (hr, hq) = (r.bound[j] as int, q.bound[j] as int);
        if i < r.runs - 1 {
            assert(closed_run(le, a, r.bound[i] as int, r.bound[i + 1] as int, r.dir[i]));
        }
        if i < q.runs - 1 {
            assert(closed_run(le, a, q.bound[i] as int, q.bound[i + 1] as int, q.dir[i]));
        }
        if lo + 1 < a.len() {
            assert(descent(le, a, lo + 1) == (r.dir[i] == -1)) by {
                assert(lo + 1 < hr || i == r.runs - 1);
            }
            assert(descent(le, a, lo + 1) == (q.dir[i] == -1));
            if hr < hq {
                assert(descent(le, a, hr) == (q.dir[i] == -1));
            }
            if hq < hr {
                assert(descent(le, a, hq) == (r.dir[i] == -1));
            }
        }
        assert(hr == hq);
    }
    if j == r.runs && j < q.runs {
        lemma_bounds(le, a, q, j, j + 1);
    }
}

/// The record of turning the groups back does not depend on how the runs were
/// found.
proof fn lemma_runs_tally<T, H: Hooks>(le: spec_fn(T, T) -> bool, a: Seq<T>, t: H::Tally, r: ScoutResult, q: ScoutResult, j: int)
    requires
        has_runs(le, a, r),
        has_runs(le, a, q),
        non_increasing(le, a),
        total_preorder(le),
        0 <= j <= r.runs,
    ensures
        r.runs == q.runs,
        runs_tally::<H>(t, r, j) == runs_tally::<H>(t, q, j),
    decreases j,
{
    lemma_runs_unique(le, a, r, q, r.runs as int);
    if j > 0 {
        lemma_runs_tally::<T, H>(le, a, t, r, q, j - 1);
        let i = j - 1;
        lemma_bounds(le, a, r, i, j);
        if i > 0 {
            lemma_bounds(le, a, r, i - 1, i);
        }
        if j < r.runs {
            lemma_bounds(le, a, r, j, j + 1);
            assert(closed_run(le, a, r.bound[i] as int, r.bound[j] as int, r.dir[i]));
        }
        assert(r.bound[i] == q.bound[i] && r.bound[j] == q.bound[j]);
        assert(r.dir[i] == q.dir[i] || r.bound[i] + 1 == a.len());
        if r.bound[i] + 1 == a.len() {
            assert(r.dir[i] == 1 && q.dir[i] == 1);
        }
        if j < r.runs {
            assert(r.bound[j] < a.len());
            if r.bound[j] + 1 == a.len() {
                assert(j == r.runs - 1) by {
                    if j < r.runs - 1 {
                        assert(closed_run(le, a, r.bound[j] as int, r.bound[j + 1] as int, r.dir[j]));
                        lemma_bounds(le, a, r, j, j + 1);
                    }
                }
                assert(r.dir[j] == 1 && q.dir[j] == 1);
            } else {
                assert(r.dir[j] == q.dir[j]);
            }
        }
    }
}

spec fn visited(r: ScoutResult, lo: int, hi: int, j: int) -> bool {
    exists|q: int| 0 <= q < j && #[trigger] run_group(r, q) == Some((lo, hi))
}

/// Turns the tie groups back that the runs stand for.
fn restore_run_groups<T: Elem, H: Hooks>(a: &mut [T], s: &ScoutResult, hooks: &mut H, Ghost(orig): Ghost<Seq<T>>)
    requires
        old(a)@ == orig.reverse(),
        has_runs(elem_le::<T>(), orig, *s),
    ensures
        keeps_record(*old(hooks), *final(hooks)),
        H::records() ==> final(hooks).tally() == runs_tally::<H>(old(hooks).tally(), *s, s.runs as int),
        final(a)@.len() == orig.len(),
        forall|lo: int, hi: int| #[trigger] tie_group(elem_le::<T>(), orig, lo, hi) ==> group_kept(orig, final(a)@, lo, hi),
{
    let ghost le = elem_le::<T>();
    let n: usize = a.len();
    let mut j: usize = 0;
    while j < s.runs
        invariant
            keeps_record(*old(hooks), *hooks),
            H::records() ==> hooks.tally() == runs_tally::<H>(old(hooks).tally(), *s, j as int),
            j <= s.runs <= MAX_RUNS,
            n == a@.len() == orig.len(),
            le == elem_le::<T>(),
            has_runs(le, orig, *s),
            forall|lo: int, hi: int|
                #[trigger] tie_group(le, orig, lo, hi) ==> if visited(*s, lo, hi, j as int) {
                    group_kept(orig, a@, lo, hi)
                } else {
                    group_turned(orig, a@, lo, hi)
                },
        decreases s.runs - j,
    {
        let ghost b = a@;
        proof {
            lemma_bounds(le, orig, *s, j as int, j + 1);
            if j > 0 {
                lemma_bounds(le, orig, *s, j - 1, j as int);
            }
            if j + 1 < s.runs {
                lemma_bounds(le, orig, *s, j + 1, j + 2);
                assert(closed_run(le, orig, s.bound[j as int] as int, s.bound[j + 1] as int, s.dir[j as int]));
            }
            assert(s.dir[j as int] == 1 || s.dir[j as int] == -1);
        }
        let mut lo: usize = 0;
        let mut hi: usize = 0;
        let mut found = false;
        if s.dir[j] > 0 {
            lo = if j > 0 && s.dir[j - 1] < 0 {
                s.bound[j] - 1
            } else {
                s.bound[j]
            };
            hi = s.bound[j + 1];
            found = true;
        } else if j + 1 < s.runs && s.dir[j + 1] < 0 {
            lo = s.bound[j + 1] - 1;
            hi = lo + 2;
            found = true;
        }
        if found {
            proof {
                assert(run_group(*s, j as int) == Some((lo as int, hi as int)));
                lemma_run_group(le, orig, *s, j as int);
                if visited(*s, lo as int, hi as int, j as int) {
                    let q = choose|q: int| 0 <= q < j && #[trigger] run_group(*s, q) == Some((lo as int, hi as int));
                    lemma_group_ends_grow(le, orig, *s, q, j as int);
                }
                assert(tie_group(le, orig, lo as int, hi as int));
                assert(group_turned(orig, b, lo as int, hi as int));
            }
            reverse_range(a, n - hi, n - lo);
            note_turned(&*a, n - hi, n - lo, hooks);
            proof {
                lemma_turn_back(le, orig, b, a@, lo as int, hi as int);
            }
        } else {
            assert(run_group(*s, j as int) is None);
        }
        proof {
            assert forall|l: int, h: int| #[trigger] tie_group(le, orig, l, h) implies if visited(*s, l, h, j + 1) {
                group_kept(orig, a@, l, h)
            } else {
                group_turned(orig, a@, l, h)
            } by {
                if visited(*s, l, h, j as int) {
                    let q = choose|q: int| 0 <= q < j && #[trigger] run_group(*s, q) == Some((l, h));
                    assert(visited(*s, l, h, j + 1));
                } else if visited(*s, l, h, j + 1) {
                    let q = choose|q: int| 0 <= q < j + 1 && #[trigger] run_group(*s, q) == Some((l, h));
                    assert(q == j);
                } else {
                    if found {
                        assert(!(l == lo && h == hi)) by {
                            if l == lo && h == hi {
                                assert(run_group(*s, j as int) == Some((l, h)));
                            }
                        }
                    }
                }
            }
        }
        j += 1;
    }
    proof {
        assert forall|lo: int, hi: int| #[trigger] tie_group(le, orig, lo, hi) implies group_kept(orig, a@, lo, hi) by {
            if lo + 2 <= hi {
                let q = lemma_group_run(le, orig, *s, lo, hi);
                assert(visited(*s, lo, hi, s.runs as int));
            } else if !visited(*s, lo, hi, s.runs as int) {
                assert(group_turned(orig, a@, lo, hi));
                assert forall|k: int| lo <= k < hi implies a@[n - hi + (k - lo)] == #[trigger] orig[k] by {
                    assert(a@[n - 1 - k] == orig[k]);
                }
            }
        }
    }
}

proof fn lemma_group_ends_grow<T>(le: spec_fn(T, T) -> bool, a: Seq<T>, r: ScoutResult, q: int, j: int)
    requires
        has_runs(le, a, r),
        0 <= q < j < r.runs,
        run_group(r, q) is Some,
        run_group(r, j) is Some,
    ensures
        (run_group(r, q)->0).1 < (run_group(r, j)->0).1,
{
    lemma_bounds(le, a, r, q, q + 1);
    lemma_bounds(le, a, r, j, j + 1);
    lemma_bounds(le, a, r, q + 1, j + 1);
    if q + 1 < j {
        lemma_bounds(le, a, r, q + 1, j);
    }
}

/// Turns every tie group back; the groups are found by a scan.
#[verifier::rlimit(40)]
pub fn restore_scanned_groups<T, C: Compare<T>, H: Hooks>(a: &mut [T], c: &C, hooks: &mut H, Ghost(orig): Ghost<Seq<T>>)
    requires
        old(a)@ == orig.reverse(),
        all_taken(c, orig),
        forall|le: spec_fn(T, T) -> bool| #[trigger] c.follows(le) ==> non_increasing(le, orig),
    ensures
        keeps_record(*old(hooks), *final(hooks)),
        final(a)@.len() == orig.len(),
        permutation(orig, final(a)@),
        forall|le: spec_fn(T, T) -> bool, lo: int, hi: int|
            #![trigger c.follows(le), tie_group(le, orig, lo, hi)]
            c.follows(le) && tie_group(le, orig, lo, hi) ==> group_kept(orig, final(a)@, lo, hi),
        forall|le: spec_fn(T, T) -> bool| #[trigger]
            c.follows(le) && H::records() ==> final(hooks).tally() == groups_tally::<T, C, H>(c, le, old(hooks).tally(), orig.reverse(), 0),
{
    let n: usize = a.len();
    let ghost rev = orig.reverse();
    let mut i: usize = 0;
    proof {
        lemma_reverse_permutation(orig);
    }
    while i < n
        invariant
            keeps_record(*old(hooks), *hooks),
            i <= n == a@.len() == orig.len(),
            all_taken(c, orig),
            permutation(orig, a@),
            forall|le: spec_fn(T, T) -> bool| #[trigger] c.follows(le) ==> non_increasing(le, orig),
            0 < i < n ==> forall|le: spec_fn(T, T) -> bool| #[trigger] c.follows(le) ==> descent(le, orig, n - i),
            forall|le: spec_fn(T, T) -> bool, lo: int, hi: int|
                #![trigger c.follows(le), tie_group(le, orig, lo, hi)]
                c.follows(le) && tie_group(le, orig, lo, hi) && lo >= n - i ==> group_kept(orig, a@, lo, hi),
            forall|k: int| i <= k < n ==> a@[k] == orig[n - 1 - k],
            rev == orig.reverse(),
            forall|le: spec_fn(T, T) -> bool| #[trigger]
                c.follows(le) && H::records() ==> groups_tally::<T, C, H>(c, le, old(hooks).tally(), rev, 0) == groups_tally::<T, C, H>(c, le, hooks.tally(), rev, i as int),
        decreases n - i,
    {
        let ghost first = orig[n - 1 - i];
        let ghost begun = hooks.tally();
        hooks.on_read(&*a, i);
        let ghost seen = hooks.tally();
        let mut j: usize = i + 1;
        let mut same = true;
        proof {
            assert forall|le: spec_fn(T, T) -> bool| #[trigger] c.follows(le) implies le(orig[n - j], first) by {
                c.follows_total(le);
                assert(le(first, first) || le(first, first));
            }
        }
        while same && j < n
            invariant
                keeps_record(*old(hooks), *hooks),
                i < j <= n == a@.len() == orig.len(),
                all_taken(c, orig),
                forall|le: spec_fn(T, T) -> bool| #[trigger] c.follows(le) ==> non_increasing(le, orig),
                first == orig[n - 1 - i],
                forall|k: int| i <= k < n ==> a@[k] == orig[n - 1 - k],
                forall|le: spec_fn(T, T) -> bool, k: int|
                    #![trigger c.follows(le), descent(le, orig, k)]
                    c.follows(le) && n - j < k < n - i ==> !descent(le, orig, k),
                forall|le: spec_fn(T, T) -> bool| #[trigger] c.follows(le) ==> le(orig[n - j], first),
                !same ==> j < n && forall|le: spec_fn(T, T) -> bool| #[trigger] c.follows(le) ==> descent(le, orig, n - j),
                rev == orig.reverse(),
                forall|le: spec_fn(T, T) -> bool| #[trigger]
                    c.follows(le) ==> tie_end(le, rev, i as int, i + 1) == if same {
                        tie_end(le, rev, i as int, j as int)
                    } else {
                        j as int
                    },
                forall|le: spec_fn(T, T) -> bool| #[trigger]
                    c.follows(le) && H::records() ==> tie_tally::<T, C, H>(c, le, seen, rev, i as int, i + 1) == if same {
                        tie_tally::<T, C, H>(c, le, hooks.tally(), rev, i as int, j as int)
                    } else {
                        hooks.tally()
                    },
            decreases
                n - j + (if same {
                    1int
                } else {
                    0int
                }),
        {
            let ghost k = n - j;
            assert(a@[i as int] == orig[n - 1 - i] && a@[j as int] == orig[n - 1 - j]);
            assert(rev[i as int] == a@[i as int] && rev[j as int] == a@[j as int]);
            let o: i32 = c.order(&a[i], &a[j]);
            hooks.on_read(&*a, j);
            c.note_bytes(&a[i], &a[j], hooks);
            hooks.on_compare(o < 0);
            if o >= 0 {
                c.note_bytes(&a[j], &a[i], hooks);
                hooks.on_compare(o > 0);
            }
            if o != 0 {
                proof {
                    assert forall|le: spec_fn(T, T) -> bool| #[trigger] c.follows(le) implies descent(le, orig, k) by {
                        c.follows_total(le);
                        assert(le(orig[n - 1 - i], orig[k - 1]));
                        if le(orig[k - 1], orig[k]) {
                            assert(le(orig[k - 1], orig[k]) && le(orig[k], first));
                        }
                    }
                }
                same = false;
            } else {
                proof {
                    assert forall|le: spec_fn(T, T) -> bool| #[trigger] c.follows(le) implies !descent(le, orig, k) by {
                        c.follows_total(le);
                        assert(le(orig[n - 1 - i], orig[k]));
                        assert(le(orig[k - 1], first) && le(first, orig[k]));
                    }
                }
                j += 1;
            }
        }
        let ghost found = hooks.tally();
        proof {
            assert forall|le: spec_fn(T, T) -> bool| #[trigger] c.follows(le) && H::records() implies found == tie_tally::<T, C, H>(c, le, seen, rev, i as int, i + 1) && j == tie_end(
                le,
                rev,
                i as int,
                i + 1,
            ) by {}
        }
        let ghost b = a@;
        let ghost lo = n - j;
        let ghost hi = n - i;
        assert(group_turned(orig, b, lo, hi));
        if j - i > 1 {
            reverse_range(a, i, j);
            note_turned(&*a, i, j, hooks);
            proof {
                lemma_reverse_permutation(b.subrange(i as int, j as int));
                let (x, y, z) = (b.take(i as int), b.subrange(i as int, j as int), b.skip(j as int));
                assert(x + y + z =~= b);
                lemma_permutation_add(x, y, x, y.reverse());
                lemma_permutation_add(x + y, z, x + y.reverse(), z);
            }
        } else {
            assert(group_kept(orig, a@, lo, hi));
        }
        proof {
            assert forall|le: spec_fn(T, T) -> bool| #[trigger] c.follows(le) && H::records() implies groups_tally::<T, C, H>(c, le, begun, rev, i as int) == groups_tally::<T, C, H>(
                c,
                le,
                hooks.tally(),
                rev,
                j as int,
            ) by {
                assert(j == tie_end(le, rev, i as int, i + 1));
            }
            assert forall|le: spec_fn(T, T) -> bool, l: int, h: int|
                #![trigger c.follows(le), tie_group(le, orig, l, h)]
                c.follows(le) && tie_group(le, orig, l, h) && l >= n - j implies group_kept(orig, a@, l, h) by {
                c.follows_total(le);
                assert(tie_group(le, orig, lo, hi));
                if j - i > 1 {
                    lemma_turn_back(le, orig, b, a@, lo, hi);
                }
                lemma_groups_apart(le, orig, lo, hi, l, h);
                if !(l == lo && h == hi) {
                    assert(group_kept(orig, b, l, h));
                }
            }
        }
        i = j;
    }
}

pub proof fn lemma_reverse_permutation<T>(s: Seq<T>)
    ensures
        permutation(s, s.reverse()),
    decreases s.len(),
{
    if s.len() > 0 {
        let t = s.drop_last();
        lemma_reverse_permutation(t);
        let x = seq![s.last()];
        lemma_permutation_add(t, x, t.reverse(), x);
        lemma_permutation_swap(t.reverse(), x);
        assert(s =~= t + x);
        assert(s.reverse() =~= x + t.reverse());
    } else {
        assert(s.reverse() =~= s);
    }
}

/// Reverses a non-increasing range in place with each group of equal keys put
/// back into input order, so the result is stable. Strictly decreasing input
/// (every pair a descent) has no groups.
pub fn reverse_stable<T, C: Compare<T>, H: Hooks>(v: &mut [T], descents: usize, c: &C, hooks: &mut H)
    requires
        old(v)@.len() > 0,
        all_taken(c, old(v)@),
        forall|le: spec_fn(T, T) -> bool| #[trigger]
            c.follows(le) ==> ascents_to(le, old(v)@, old(v)@.len() as int) == 0 && descents == descents_to(le, old(v)@, old(v)@.len() as int),
    ensures
        keeps_record(*old(hooks), *final(hooks)),
        ordered_by(c, old(v)@, final(v)@),
{
    let ghost orig = v@;
    let n: usize = v.len();
    proof {
        assert forall|le: spec_fn(T, T) -> bool| #[trigger] c.follows(le) implies non_increasing(le, orig) by {
            c.follows_total(le);
            lemma_no_ascents(le, orig, n as int);
        }
        lemma_reverse_permutation(orig);
    }
    reverse_all(v, hooks);
    if descents == n - 1 {
        proof {
            assert forall|le: spec_fn(T, T) -> bool, lo: int, hi: int|
                #![trigger c.follows(le), tie_group(le, orig, lo, hi)]
                c.follows(le) && tie_group(le, orig, lo, hi) implies group_kept(orig, v@, lo, hi) by {
                c.follows_total(le);
                if lo + 1 < hi {
                    lemma_all_descents(le, orig, n as int, lo + 1);
                    assert(!descent(le, orig, lo + 1));
                }
            }
        }
    } else {
        restore_scanned_groups(v, c, hooks, Ghost(orig));
    }
    proof {
        assert forall|le: spec_fn(T, T) -> bool| #[trigger] c.follows(le) implies stable_sort_of(le, orig, v@) by {
            c.follows_total(le);
            lemma_groups_sort(le, orig, v@, 0);
            assert(orig.skip(0) =~= orig);
            assert(v@.take(n as int) =~= v@);
        }
    }
}

/// Reverses a non-increasing range while keeping equal keys in their original
/// order. With the scout's run bounds the tie groups are known without another
/// pass: in a non-increasing sequence a strictly decreasing run can only end at
/// a tie, and a non-decreasing run consists of equal keys. Each group is
/// reversed back after the whole range was reversed. Without the bounds the
/// groups are found by a scan.
pub fn stable_reverse<T: Elem, H: Hooks>(a: &mut [T], s: &ScoutResult, hooks: &mut H)
    requires
        old(a)@.len() > 0,
        ascents_to(elem_le::<T>(), old(a)@, old(a)@.len() as int) == 0,
        s.descents == descents_to(elem_le::<T>(), old(a)@, old(a)@.len() as int),
        s.tracking ==> has_runs(elem_le::<T>(), old(a)@, *s),
    ensures
        keeps_record(*old(hooks), *final(hooks)),
        stable_sort_of(elem_le::<T>(), old(a)@, final(a)@),
        H::records() && (s.tracking <==> runs_to(elem_le::<T>(), old(a)@, old(a)@.len() as int).0 <= MAX_RUNS) ==> final(hooks).tally() == reverse_tally::<T, H>(old(hooks).tally(), old(a)@),
{
    let ghost le = elem_le::<T>();
    let ghost orig = a@;
    let n: usize = a.len();
    proof {
        lemma_elem_le_total::<T>();
        lemma_no_ascents(le, orig, n as int);
    }
    reverse_all(a, hooks);
    if s.descents == n - 1 {
        proof {
            assert forall|lo: int, hi: int| #[trigger] tie_group(le, orig, lo, hi) implies group_kept(orig, a@, lo, hi) by {
                if lo + 1 < hi {
                    lemma_all_descents(le, orig, n as int, lo + 1);
                    assert(!descent(le, orig, lo + 1));
                }
            }
        }
    } else if s.tracking {
        let ghost turned = hooks.tally();
        restore_run_groups(a, s, hooks, Ghost(orig));
        proof {
            let r = choose|r: ScoutResult| has_runs(le, orig, r);
            lemma_runs_tally::<T, H>(le, orig, turned, *s, r, s.runs as int);
        }
    } else {
        assert(Compare::<T>::follows(&Natural, le));
        restore_scanned_groups(a, &Natural, hooks, Ghost(orig));
    }
    proof {
        lemma_groups_sort(le, orig, a@, 0);
        assert(orig.skip(0) =~= orig);
        assert(a@.take(n as int) =~= a@);
    }
}

} // verus!
