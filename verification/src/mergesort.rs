//! Classic top-down merge sort with a full-size scratch buffer: the fallback
//! for ranges of 2^32 elements or more. The input is copied to the scratch
//! buffer once and the recursion then alternates between the two buffers, so
//! no per-level copy-back is needed. Leaves of at most 16 elements are
//! insertion sorted. Stable, n extra elements of memory.
use crate::less::{
    all_accepted, in_order, insertion_sort_by, insertion_tally, lemma_accepted_permutation,
    notes_of, sorted_by, Less, Natural,
};
use crate::order::{
    lemma_merged, lemma_permutation_add, lemma_permutation_len, lemma_permutation_swap,
    lemma_stable_add, lemma_stable_trans, lemma_stably, merged, permutation, stable, stable_sort_of,
    stably, total_preorder,
};
use crate::view::{
    after_copies, asks_for, books, copy_forward, elem_le, give_array, given, keeps_counts,
    keeps_record, lemma_record, note_copies, take_array, taken, told, Alloc, AllocError, Elem,
    Hooks, Note,
};
use vstd::prelude::*;

verus! {

/// The record of the merge of `s[i, mid)` with `s[j, ..)`.
pub open spec fn merging_tally<T, H: Hooks>(notes: spec_fn(T, T, bool) -> Seq<Note>, le: spec_fn(T, T) -> bool, t: H::Tally, s: Seq<T>, mid: int, held: bool, i: int, j: int) -> H::Tally
    decreases
        (if i < mid {
            mid - i
        } else {
            0
        }) + (if j < s.len() {
            s.len() - j
        } else {
            0
        }),
{
    if i >= mid && j >= s.len() {
        t
    } else if i < mid && j < s.len() {
        let seen = if !held || i + (j - mid) == 0 {
            H::after(H::after(t, Note::Read), Note::Read)
        } else {
            t
        };
        let less = !le(s[i], s[j]);
        let put = H::after(told::<H>(seen, notes(s[j], s[i], less)), Note::Write);
        if less {
            let next = if held && j + 1 < s.len() {
                H::after(put, Note::Read)
            } else {
                put
            };
            merging_tally::<T, H>(notes, le, next, s, mid, held, i, j + 1)
        } else {
            let next = if held && i + 1 < mid {
                H::after(put, Note::Read)
            } else {
                put
            };
            merging_tally::<T, H>(notes, le, next, s, mid, held, i + 1, j)
        }
    } else {
        let put = H::after(H::after(t, Note::Read), Note::Write);
        if j < s.len() {
            merging_tally::<T, H>(notes, le, put, s, mid, held, i, j + 1)
        } else {
            merging_tally::<T, H>(notes, le, put, s, mid, held, i + 1, j)
        }
    }
}

/// Merges sorted `src[0, mid)` and `src[mid, ..)` into `dst`. Stable: on ties
/// the left element wins. With `held` the two elements that are compared are
/// kept from one comparison to the next; without it both are read each time.
#[verifier::rlimit(40)]
fn merge<T: Copy, O: Less<T>, H: Hooks>(src: &[T], dst: &mut [T], mid: usize, held: bool, o: &O, hooks: &mut H)
    requires
        mid <= src@.len(),
        src@.len() == old(dst)@.len(),
        all_accepted(o, src@),
        in_order(o, src@.take(mid as int)),
        in_order(o, src@.skip(mid as int)),
    ensures
        keeps_record(*old(hooks), *final(hooks)),
        sorted_by(o, src@, final(dst)@),
        forall|le: spec_fn(T, T) -> bool| #[trigger]
            o.follows(le) && o.tells() ==> final(hooks).tally() == merging_tally::<T, H>(notes_of(o), le, old(hooks).tally(), src@, mid as int, held, 0, mid as int),
{
    let ghost x = src@.take(mid as int);
    let ghost y = src@.skip(mid as int);
    let n: usize = src.len();
    let mut i: usize = 0;
    let mut j: usize = mid;
    let mut k: usize = 0;
    assert(x.skip(0) =~= x);
    assert(y.skip(0) =~= y);
    assert forall|le: spec_fn(T, T) -> bool| #[trigger] o.follows(le) implies dst@.take(0) + merged(le, x.skip(0), y.skip(0)) == merged(le, x, y) by {
        assert(dst@.take(0) + merged(le, x, y) =~= merged(le, x, y));
    }
    assert(x.take(0) + y.take(0) =~= dst@.take(0));
    while i < mid || j < n
        invariant
            keeps_record(*old(hooks), *hooks),
            i <= mid <= j <= n,
            n == src@.len(),
            dst@.len() == n,
            k == i + (j - mid),
            x == src@.take(mid as int),
            y == src@.skip(mid as int),
            all_accepted(o, src@),
            permutation(x.take(i as int) + y.take(j - mid), dst@.take(k as int)),
            forall|le: spec_fn(T, T) -> bool|
                #[trigger] o.follows(le) ==> dst@.take(k as int) + merged(le, x.skip(i as int), y.skip(j - mid)) == merged(le, x, y),
            forall|le: spec_fn(T, T) -> bool| #[trigger]
                o.follows(le) && o.tells() ==> merging_tally::<T, H>(notes_of(o), le, old(hooks).tally(), src@, mid as int, held, 0, mid as int) == merging_tally::<T, H>(
                    notes_of(o),
                    le,
                    hooks.tally(),
                    src@,
                    mid as int,
                    held,
                    i as int,
                    j as int,
                ),
        decreases (mid - i) + (n - j),
    {
        let ghost xr = x.skip(i as int);
        let ghost yr = y.skip(j - mid);
        let ghost xt = x.take(i as int);
        let ghost yt = y.take(j - mid);
        let ghost before = dst@.take(k as int);
        let pair = i < mid && j < n;
        if pair && (!held || k == 0) {
            hooks.on_read(src, i);
            hooks.on_read(src, j);
        }
        if j < n && (i == mid || o.less_seen(src[j], src[i], hooks)) {
            if !pair {
                hooks.on_read(src, j);
            }
            dst[k] = src[j];
            hooks.on_write(&*dst, k);
            j += 1;
            if pair && held && j < n {
                hooks.on_read(src, j);
            }
            proof {
                let v = src@[j - 1];
                assert(yr.skip(1) =~= y.skip(j - mid));
                assert forall|le: spec_fn(T, T) -> bool| #[trigger] o.follows(le) implies merged(le, xr, yr) =~= seq![v] + merged(le, xr, yr.skip(1)) by {}
                lemma_permutation_add(xt + yt, seq![v], before, seq![v]);
                assert(xt + y.take(j - mid) =~= (xt + yt) + seq![v]);
                assert(dst@.take(k + 1) =~= before + seq![v]);
            }
        } else {
            if !pair {
                hooks.on_read(src, i);
            }
            dst[k] = src[i];
            hooks.on_write(&*dst, k);
            i += 1;
            if pair && held && i < mid {
                hooks.on_read(src, i);
            }
            proof {
                let v = src@[i - 1];
                assert(xr.skip(1) =~= x.skip(i as int));
                assert forall|le: spec_fn(T, T) -> bool| #[trigger] o.follows(le) implies merged(le, xr, yr) =~= seq![v] + merged(le, xr.skip(1), yr) by {}
                lemma_permutation_swap(yt, seq![v]);
                lemma_permutation_add(xt, yt + seq![v], xt, seq![v] + yt);
                assert(xt + (seq![v] + yt) =~= x.take(i as int) + yt);
                lemma_permutation_add(xt + yt, seq![v], before, seq![v]);
                assert((xt + yt) + seq![v] =~= xt + (yt + seq![v]));
                assert(dst@.take(k + 1) =~= before + seq![v]);
            }
        }
        k += 1;
        assert(dst@.take(k as int) =~= before.push(dst@[k - 1]));
        proof {
            assert forall|le: spec_fn(T, T) -> bool| #[trigger] o.follows(le) implies dst@.take(k as int) + merged(le, x.skip(i as int), y.skip(j - mid)) == merged(le, x, y) by {
                assert(dst@.take(k as int) + merged(le, x.skip(i as int), y.skip(j - mid)) =~= before + merged(le, xr, yr));
            }
        }
    }
    proof {
        assert(dst@.take(n as int) =~= dst@);
        assert(x.take(mid as int) + y.take(n - mid) =~= src@);
        assert forall|le: spec_fn(T, T) -> bool| #[trigger] o.follows(le) implies stable_sort_of(le, src@, dst@) by {
            o.follows_total(le);
            lemma_merged(le, x, y);
            assert(x + y =~= src@);
            assert(merged(le, x.skip(i as int), y.skip(j - mid)) =~= Seq::empty());
            assert(dst@ =~= merged(le, x, y));
        }
    }
}

/// Leaves of at most this many elements are insertion sorted.
pub const LEAF: usize = 16;

/// The record of the recursive merge sort.
pub open spec fn halves_tally<T, O: Less<T>, H: Hooks>(o: &O, le: spec_fn(T, T) -> bool, t: H::Tally, s: Seq<T>) -> H::Tally
    decreases s.len(),
{
    let begun = H::after(t, Note::Enter);
    if s.len() <= LEAF {
        H::after(insertion_tally::<T, O, H>(o, le, begun, s, s.len() as int), Note::Leave)
    } else {
        let mid = s.len() as int / 2;
        let (x, y) = (s.take(mid), s.skip(mid));
        let both = halves_tally::<T, O, H>(o, le, halves_tally::<T, O, H>(o, le, begun, x), y);
        H::after(merging_tally::<T, H>(notes_of(o), le, both, stably(le, x) + stably(le, y), mid, true, 0, mid), Note::Leave)
    }
}

/// `src` and `dst` hold the same elements on entry; `dst` is sorted on
/// return.
#[verifier::rlimit(40)]
fn split_merge<T: Copy, O: Less<T>, H: Hooks>(src: &mut [T], dst: &mut [T], o: &O, hooks: &mut H)
    requires
        old(src)@ == old(dst)@,
        all_accepted(o, old(src)@),
    ensures
        keeps_counts(*old(hooks), *final(hooks)),
        sorted_by(o, old(dst)@, final(dst)@),
        final(src)@.len() == old(src)@.len(),
        forall|le: spec_fn(T, T) -> bool| #[trigger]
            o.follows(le) && o.tells() ==> final(hooks).tally() == halves_tally::<T, O, H>(o, le, old(hooks).tally(), old(dst)@),
    decreases old(src)@.len(),
{
    let n: usize = src.len();
    if n <= LEAF {
        hooks.enter_depth();
        insertion_sort_by(dst, o, hooks);
        hooks.leave_depth();
        proof {
            assert forall|le: spec_fn(T, T) -> bool| #[trigger] o.follows(le) && o.tells() implies hooks.tally() == halves_tally::<T, O, H>(o, le, old(hooks).tally(), old(dst)@) by {
                lemma_record::<H>(hooks.tally(), halves_tally::<T, O, H>(o, le, old(hooks).tally(), old(dst)@));
            }
        }
        return;
    }
    hooks.enter_depth();
    let mid: usize = n / 2;
    let ghost s = dst@;
    {
        let (sl, sr) = src.split_at_mut(mid);
        let (dl, dr) = dst.split_at_mut(mid);
        split_merge(dl, sl, o, hooks);
        split_merge(dr, sr, o, hooks);
        proof {
            let x = s.subrange(0, mid as int);
            let y = s.subrange(mid as int, n as int);
            assert(x + y =~= s);
            assert(x =~= s.take(mid as int));
            assert(y =~= s.skip(mid as int));
            assert forall|le: spec_fn(T, T) -> bool| #[trigger] o.follows(le) implies sl@ == stably(le, x) && sr@ == stably(le, y) by {
                o.follows_total(le);
                lemma_stably(le, x, sl@);
                lemma_stably(le, y, sr@);
            }
            lemma_permutation_add(x, y, sl@, sr@);
            lemma_permutation_len(x, sl@);
            lemma_permutation_len(y, sr@);
            assert((sl@ + sr@).take(mid as int) =~= sl@);
            assert((sl@ + sr@).skip(mid as int) =~= sr@);
            lemma_accepted_permutation(o, s, sl@ + sr@);
            assert forall|le: spec_fn(T, T) -> bool| #[trigger] o.follows(le) implies stable(le, s, sl@ + sr@) by {
                lemma_stable_add(le, x, y, sl@, sr@);
            }
        }
    }
    let ghost mid_way = src@;
    merge(src, dst, mid, true, o, hooks);
    hooks.leave_depth();
    proof {
        assert forall|le: spec_fn(T, T) -> bool| #[trigger] o.follows(le) implies stable_sort_of(le, s, dst@) by {
            lemma_stable_trans(le, s, mid_way, dst@);
        }
    }
}

/// Stable merge sort by a given comparison. An error, with the array
/// untouched, where the scratch memory is not there.
#[verifier::rlimit(40)]
pub fn merge_sort_by<T: Copy, O: Less<T>, M: Alloc, H: Hooks>(a: &mut [T], o: &O, mem: &mut M, hooks: &mut H) -> (r: Result<(), AllocError>)
    requires
        all_accepted(o, old(a)@),
    ensures
        keeps_counts(*old(hooks), *final(hooks)),
        r is Ok ==> sorted_by(o, old(a)@, final(a)@),
        r is Ok ==> final(mem).refusals() == old(mem).refusals(),
        r is Err ==> final(a)@ == old(a)@ && final(mem).refusals() == old(mem).refusals() + 1,
        final(mem).held() == old(mem).held(),
        old(a)@.len() < 2 ==> r is Ok && *final(mem) == *old(mem) && final(a)@ == old(a)@,
        old(a)@.len() >= 2 ==> final(mem).asked() == asks_for::<T>(old(mem).asked(), old(a)@.len()),
        old(a)@.len() >= 2 && r is Ok ==> books(*final(mem)) == given::<T>(taken::<T>(books(*old(mem)), old(a)@.len()), old(a)@.len()),
        forall|le: spec_fn(T, T) -> bool| #[trigger]
            o.follows(le) && o.tells() && r is Ok && old(a)@.len() >= 2 ==> final(hooks).tally() == halves_tally::<T, O, H>(
                o,
                le,
                after_copies::<H>(old(hooks).tally(), old(a)@.len() as int),
                old(a)@,
            ),
        old(a)@.len() < 2 || r is Err ==> final(hooks).tally() == old(hooks).tally(),
{
    let n: usize = a.len();
    proof {
        assert forall|le: spec_fn(T, T) -> bool| #[trigger] o.follows(le) implies total_preorder(le) by {
            o.follows_total(le);
        }
    }
    if n < 2 {
        return Ok(());
    }
    let mut buf: Vec<T> = match take_array(mem, n, hooks) {
        Ok(v) => v,
        Err(e) => {
            return Err(e);
        },
    };
    let mut i: usize = 0;
    while i < n
        invariant
            keeps_record(*old(hooks), *hooks),
            hooks.tally() == old(hooks).tally(),
            i <= n,
            n == a@.len(),
            a@ == old(a)@,
            buf@ == a@.take(i as int),
        decreases n - i,
    {
        buf.push(a[i]);
        i += 1;
        assert(buf@ =~= a@.take(i as int));
    }
    assert(buf@ =~= a@);
    note_copies(&*a, 0, &buf, 0, n, hooks);
    split_merge(&mut buf, a, o, hooks);
    give_array(mem, buf, n, hooks);
    Ok(())
}

/// Stable merge sort with a buffer of as many elements.
pub fn merge_sort_with<T: Elem, H: Hooks>(a: &mut [T], buf: &mut [T], hooks: &mut H)
    requires
        old(buf)@.len() == old(a)@.len(),
    ensures
        keeps_counts(*old(hooks), *final(hooks)),
        stable_sort_of(elem_le::<T>(), old(a)@, final(a)@),
        final(a)@.len() == old(a)@.len(),
        final(buf)@.len() == old(buf)@.len(),
{
    assert(Less::<T>::follows(&Natural, elem_le::<T>()));
    let n: usize = a.len();
    copy_forward(a, 0, buf, 0, n);
    note_copies(&*a, 0, &*buf, 0, n, hooks);
    assert(buf@ =~= a@);
    split_merge(buf, a, &Natural, hooks);
    proof {
        lemma_permutation_len(old(a)@, a@);
    }
}

/// The block `k` of `w` elements; the last one may be shorter.
pub open spec fn block<T>(s: Seq<T>, w: int, k: int) -> Seq<T> {
    s.subrange(
        k * w,
        if k * w + w < s.len() {
            k * w + w
        } else {
            s.len() as int
        },
    )
}

/// Every block is sorted by every order that the comparison follows.
pub open spec fn in_blocks<T, O: Less<T>>(o: &O, s: Seq<T>, w: int) -> bool {
    forall|k: int| 0 <= k && k * w < s.len() ==> in_order(o, #[trigger] block(s, w, k))
}

/// Where the block that starts at `lo` ends.
pub open spec fn block_end(n: int, lo: int, w: int) -> int {
    if n - lo < w {
        n
    } else {
        lo + w
    }
}

/// The record of merging the blocks from `lo` on in pairs.
pub open spec fn blocks_tally<T, H: Hooks>(notes: spec_fn(T, T, bool) -> Seq<Note>, le: spec_fn(T, T) -> bool, t: H::Tally, s: Seq<T>, w: int, lo: int) -> H::Tally
    decreases s.len() - lo,
{
    let mid = block_end(s.len() as int, lo, w);
    let hi = block_end(s.len() as int, mid, w);
    if lo >= s.len() || hi <= lo {
        t
    } else {
        blocks_tally::<T, H>(notes, le, merging_tally::<T, H>(notes, le, t, s.subrange(lo, hi), mid - lo, false, 0, mid - lo), s, w, hi)
    }
}

/// What merging the blocks from `lo` on in pairs leaves.
pub open spec fn blocks_out<T>(le: spec_fn(T, T) -> bool, s: Seq<T>, w: int, lo: int) -> Seq<T>
    decreases s.len() - lo,
{
    let mid = block_end(s.len() as int, lo, w);
    let hi = block_end(s.len() as int, mid, w);
    if lo >= s.len() || hi <= lo {
        Seq::empty()
    } else {
        stably(le, s.subrange(lo, hi)) + blocks_out(le, s, w, hi)
    }
}

/// The record of the bottom-up merge sort of blocks of `w` elements: two passes at a
/// time, there and back.
pub open spec fn upward_tally<T, H: Hooks>(notes: spec_fn(T, T, bool) -> Seq<Note>, le: spec_fn(T, T) -> bool, t: H::Tally, s: Seq<T>, w: int) -> H::Tally
    decreases s.len() - w,
{
    let n = s.len() as int;
    if w >= n || w <= 0 {
        t
    } else {
        let there = blocks_tally::<T, H>(notes, le, t, s, w, 0);
        if w >= n - w {
            after_copies::<H>(there, n)
        } else {
            let b = blocks_out(le, s, w, 0);
            let back = blocks_tally::<T, H>(notes, le, there, b, 2 * w, 0);
            let c = blocks_out(le, b, 2 * w, 0);
            if 2 * w >= n - 2 * w || c.len() != n {
                back
            } else {
                upward_tally::<T, H>(notes, le, back, c, 4 * w)
            }
        }
    }
}

/// Merges the sorted blocks of `src` in pairs into `dst`.
#[verifier::rlimit(40)]
fn merge_blocks<T: Copy, O: Less<T>, H: Hooks>(src: &[T], dst: &mut [T], w: usize, o: &O, hooks: &mut H)
    requires
        0 < w,
        src@.len() == old(dst)@.len(),
        all_accepted(o, src@),
        in_blocks(o, src@, w as int),
    ensures
        keeps_record(*old(hooks), *final(hooks)),
        final(dst)@.len() == src@.len(),
        permutation(src@, final(dst)@),
        forall|le: spec_fn(T, T) -> bool| #[trigger] o.follows(le) ==> stable(le, src@, final(dst)@),
        in_blocks(o, final(dst)@, 2 * w),
        forall|le: spec_fn(T, T) -> bool| #[trigger]
            o.follows(le) ==> final(dst)@ == blocks_out(le, src@, w as int, 0) && (o.tells() ==> final(hooks).tally() == blocks_tally::<T, H>(notes_of(o), le, old(hooks).tally(), src@, w as int, 0)),
{
    let n: usize = src.len();
    let ghost s = src@;
    let ghost ww = 2 * w as int;
    let ghost mut k: int = 0;
    let mut lo: usize = 0;
    proof {
        assert(s.take(0) =~= dst@.take(0));
        assert forall|le: spec_fn(T, T) -> bool| #[trigger] o.follows(le) implies stable(le, s.take(0), dst@.take(0)) by {
            o.follows_total(le);
            assert(s.take(0) == dst@.take(0));
        }
        assert forall|le: spec_fn(T, T) -> bool| #[trigger] o.follows(le) implies dst@.take(0) + blocks_out(le, s, w as int, 0) == blocks_out(le, s, w as int, 0) by {
            assert(dst@.take(0) + blocks_out(le, s, w as int, 0) =~= blocks_out(le, s, w as int, 0));
        }
    }
    while lo < n
        invariant
            keeps_record(*old(hooks), *hooks),
            0 < w,
            ww == 2 * w,
            n == s.len() == dst@.len(),
            s == src@,
            lo <= n,
            0 <= k,
            lo < n ==> lo == k * ww,
            lo == n ==> k * ww >= n,
            all_accepted(o, s),
            in_blocks(o, s, w as int),
            permutation(s.take(lo as int), dst@.take(lo as int)),
            forall|le: spec_fn(T, T) -> bool| #[trigger] o.follows(le) ==> stable(le, s.take(lo as int), dst@.take(lo as int)),
            forall|q: int| 0 <= q < k && q * ww < n ==> in_order(o, #[trigger] block(dst@, ww, q)),
            forall|le: spec_fn(T, T) -> bool| #[trigger] o.follows(le) ==> dst@.take(lo as int) + blocks_out(le, s, w as int, lo as int) == blocks_out(le, s, w as int, 0),
            forall|le: spec_fn(T, T) -> bool| #[trigger]
                o.follows(le) && o.tells() ==> blocks_tally::<T, H>(notes_of(o), le, old(hooks).tally(), s, w as int, 0) == blocks_tally::<T, H>(notes_of(o), le, hooks.tally(), s, w as int, lo as int),
        decreases n - lo,
    {
        let mid: usize = if n - lo < w {
            n
        } else {
            lo + w
        };
        let hi: usize = if n - mid < w {
            n
        } else {
            mid + w
        };
        let ghost before = dst@;
        proof {
            lemma_two_blocks(k, w as int);
            let x = s.subrange(lo as int, hi as int);
            assert(x.take(mid - lo) =~= block(s, w as int, 2 * k));
            if mid < n {
                assert(x.skip(mid - lo) =~= block(s, w as int, 2 * k + 1));
            } else {
                assert(x.skip(mid - lo) =~= Seq::<T>::empty());
                assert(in_order(o, x.skip(mid - lo)));
            }
        }
        let (dl, dr) = dst.split_at_mut(lo);
        let (dm, de) = dr.split_at_mut(hi - lo);
        let part = vstd::slice::slice_subrange(src, lo, hi);
        merge(part, dm, mid - lo, false, o, hooks);
        proof {
            let x = s.subrange(lo as int, hi as int);
            let y = dm@;
            lemma_permutation_len(x, y);
            let after = dl@ + (dm@ + de@);
            assert(dl@ =~= before.take(lo as int));
            assert(after.take(hi as int) =~= before.take(lo as int) + y);
            assert(s.take(hi as int) =~= s.take(lo as int) + x);
            lemma_permutation_add(s.take(lo as int), x, before.take(lo as int), y);
            assert forall|le: spec_fn(T, T) -> bool| #[trigger] o.follows(le) implies stable(le, s.take(hi as int), after.take(hi as int)) by {
                lemma_stable_add(le, s.take(lo as int), x, before.take(lo as int), y);
            }
            assert(mid == block_end(n as int, lo as int, w as int) && hi == block_end(n as int, mid as int, w as int));
            assert forall|le: spec_fn(T, T) -> bool| #[trigger] o.follows(le) implies after.take(hi as int) + blocks_out(le, s, w as int, hi as int) == blocks_out(le, s, w as int, 0) by {
                o.follows_total(le);
                lemma_stably(le, x, y);
                assert(after.take(hi as int) + blocks_out(le, s, w as int, hi as int) =~= before.take(lo as int) + (y + blocks_out(le, s, w as int, hi as int)));
            }
            assert((k + 1) * ww == k * ww + ww) by (nonlinear_arith);
            assert forall|q: int| 0 <= q < k + 1 && q * ww < n implies in_order(o, #[trigger] block(after, ww, q)) by {
                if q < k {
                    assert(q * ww + ww <= k * ww) by (nonlinear_arith)
                        requires
                            q < k,
                            ww > 0,
                    ;
                    assert(q * ww >= 0) by (nonlinear_arith)
                        requires
                            q >= 0,
                            ww > 0,
                    ;
                    assert(block(after, ww, q) =~= block(before, ww, q));
                } else {
                    assert(block(after, ww, q) =~= y);
                }
            }
            k = k + 1;
        }
        lo = hi;
    }
    proof {
        assert(s.take(n as int) =~= s);
        assert(dst@.take(n as int) =~= dst@);
        assert forall|le: spec_fn(T, T) -> bool| #[trigger] o.follows(le) implies dst@ == blocks_out(le, s, w as int, 0) by {
            assert(dst@ + blocks_out(le, s, w as int, n as int) =~= dst@);
        }
        assert forall|q: int| 0 <= q && q * ww < n implies in_order(o, #[trigger] block(dst@, ww, q)) by {
            if q >= k {
                assert(q * ww >= k * ww) by (nonlinear_arith)
                    requires
                        q >= k,
                        ww > 0,
                ;
            }
        }
    }
}

proof fn lemma_two_blocks(k: int, w: int)
    ensures
        (2 * k) * w == k * (2 * w),
        (2 * k + 1) * w == k * (2 * w) + w,
{
    assert((2 * k) * w == k * (2 * w)) by (nonlinear_arith);
    assert((2 * k + 1) * w == k * (2 * w) + w) by (nonlinear_arith);
}

/// Stable bottom-up merge sort by a given comparison, with a scratch array as
/// long as `a`.
#[verifier::rlimit(40)]
pub fn merge_up<T: Copy, O: Less<T>, H: Hooks>(a: &mut [T], buf: &mut [T], o: &O, hooks: &mut H)
    requires
        all_accepted(o, old(a)@),
        old(buf)@.len() == old(a)@.len(),
    ensures
        keeps_record(*old(hooks), *final(hooks)),
        sorted_by(o, old(a)@, final(a)@),
        final(buf)@.len() == old(buf)@.len(),
        forall|le: spec_fn(T, T) -> bool| #[trigger] o.follows(le) && o.tells() ==> final(hooks).tally() == upward_tally::<T, H>(notes_of(o), le, old(hooks).tally(), old(a)@, 1),
{
    let n: usize = a.len();
    let ghost s = a@;
    let mut w: usize = 1;
    proof {
        assert forall|le: spec_fn(T, T) -> bool| #[trigger] o.follows(le) implies total_preorder(le) by {
            o.follows_total(le);
        }
        assert forall|k: int| 0 <= k && k * 1 < s.len() implies in_order(o, #[trigger] block(s, 1, k)) by {
            assert(block(s, 1, k).len() == 1);
        }
    }
    while w < n
        invariant
            keeps_record(*old(hooks), *hooks),
            0 < w,
            n == a@.len() == s.len() == buf@.len(),
            forall|le: spec_fn(T, T) -> bool| #[trigger] o.follows(le) ==> total_preorder(le),
            all_accepted(o, s),
            permutation(s, a@),
            forall|le: spec_fn(T, T) -> bool| #[trigger] o.follows(le) ==> stable(le, s, a@),
            w < n ==> in_blocks(o, a@, w as int),
            w >= n ==> in_order(o, a@),
            s == old(a)@,
            forall|le: spec_fn(T, T) -> bool| #[trigger]
                o.follows(le) && o.tells() ==> upward_tally::<T, H>(notes_of(o), le, old(hooks).tally(), s, 1) == upward_tally::<T, H>(notes_of(o), le, hooks.tally(), a@, w as int),
        decreases n - w,
    {
        let ghost a0 = a@;
        proof {
            lemma_accepted_permutation(o, s, a0);
        }
        merge_blocks(&*a, buf, w, o, hooks);
        proof {
            lemma_accepted_permutation(o, s, buf@);
            assert forall|le: spec_fn(T, T) -> bool| #[trigger] o.follows(le) implies stable(le, s, buf@) by {
                lemma_stable_trans(le, s, a0, buf@);
            }
        }
        if w >= n - w {
            copy_forward(&*buf, 0, a, 0, n);
            note_copies(&*buf, 0, &*a, 0, n, hooks);
            assert(a@ =~= buf@);
            assert(block(buf@, 2 * w, 0) =~= buf@);
            w = n;
        } else {
            w = 2 * w;
            let ghost b0 = buf@;
            merge_blocks(&*buf, a, w, o, hooks);
            proof {
                assert forall|le: spec_fn(T, T) -> bool| #[trigger] o.follows(le) implies stable(le, s, a@) by {
                    lemma_stable_trans(le, s, b0, a@);
                }
            }
            if w >= n - w {
                assert(block(a@, 2 * w, 0) =~= a@);
                w = n;
            } else {
                w = 2 * w;
            }
        }
    }
}

/// Stable merge sort. An error, with the array untouched, where the scratch
/// memory is not there.
pub fn merge_sort<T: Elem, M: Alloc, H: Hooks>(a: &mut [T], mem: &mut M, hooks: &mut H) -> (r: Result<(), AllocError>)
    ensures
        keeps_counts(*old(hooks), *final(hooks)),
        r is Ok ==> stable_sort_of(elem_le::<T>(), old(a)@, final(a)@),
        r is Ok ==> final(mem).refusals() == old(mem).refusals(),
        r is Err ==> final(a)@ == old(a)@ && final(mem).refusals() == old(mem).refusals() + 1,
        final(mem).held() == old(mem).held(),
        r is Ok ==> final(hooks).tally() == if old(a)@.len() < 2 {
            old(hooks).tally()
        } else {
            halves_tally::<T, Natural, H>(&Natural, elem_le::<T>(), after_copies::<H>(old(hooks).tally(), old(a)@.len() as int), old(a)@)
        },
        old(a)@.len() < 2 ==> r is Ok && *final(mem) == *old(mem) && final(a)@ == old(a)@,
        old(a)@.len() >= 2 ==> final(mem).asked() == asks_for::<T>(old(mem).asked(), old(a)@.len()),
        old(a)@.len() >= 2 && r is Ok ==> books(*final(mem)) == given::<T>(taken::<T>(books(*old(mem)), old(a)@.len()), old(a)@.len()),
{
    assert(Less::<T>::follows(&Natural, elem_le::<T>()));
    merge_sort_by(a, &Natural, mem, hooks)
}

} // verus!
