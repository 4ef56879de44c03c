//! The natural-run merge in front of the comparison sort.
//!
//! A comparator gives the radix engine nothing to work with, so a comparison
//! sort is left. Before the standard library's stable sort gets the elements,
//! one pass finds the maximal non-descending runs (strictly descending ones are
//! reversed in place, which keeps equal elements in order) and gives up as soon
//! as the runs are too short to pay. Long runs are merged bottom-up between the
//! array and a buffer, so an input made of a few sorted pieces costs log(pieces)
//! passes; a pair of runs already in order is copied instead of merged.
//!
//! A comparison that is no order gets an unspecified order, every element
//! exactly once: every merge is counted, so no answer can move a cursor past a
//! run or take an element twice.
use crate::algorithm::monotone::lemma_reverse_permutation;
use crate::algorithm::scout::descent;
use crate::less::{all_accepted, in_order, lemma_accepted_permutation, sorted_by, Less};
use crate::order::{
    lemma_merged, lemma_merges_equal, lemma_permutation_add, lemma_permutation_len,
    lemma_permutation_member, lemma_permutation_swap, lemma_sorted_add, lemma_stable_add,
    lemma_stable_permutation, lemma_stable_swap, lemma_stable_trans, merged, permutation, sorted,
    stable, stable_sort_of, tied, total_preorder, untied,
};
use crate::view::{alloc_array, copy_forward, free_array, reverse_range, Alloc};
use vstd::multiset::Multiset;
use vstd::prelude::*;

verus! {

/// Below this many elements the runs are not looked for.
pub const RUNS_MIN: usize = 512;

/// From this run length on, pairs of merges are split rather than paired.
const SPLIT_WIDTH: usize = 2048;

// ---- the merges ----------------------------------------------------------------------------------

/// A merge in progress: the two runs in the source and the output cursor.
#[derive(Clone, Copy, Debug)]
pub struct Merge {
    pub l: usize,
    pub lend: usize,
    pub r: usize,
    pub rend: usize,
    pub out: usize,
}

impl Merge {
    /// The left run.
    pub open spec fn left<T>(self, s: Seq<T>) -> Seq<T> {
        s.subrange(self.l as int, self.lend as int)
    }

    /// The right run.
    pub open spec fn right<T>(self, s: Seq<T>) -> Seq<T> {
        s.subrange(self.r as int, self.rend as int)
    }

    /// Where the output ends.
    pub open spec fn end(self) -> int {
        self.out + (self.lend - self.l) + (self.rend - self.r)
    }

    /// The runs lie in a source of `n` elements, the output in `m`.
    pub open spec fn fits(self, n: nat, m: nat) -> bool {
        &&& self.l <= self.lend <= n
        &&& self.r <= self.rend <= n
        &&& self.end() <= m
    }

    /// Both runs are in order.
    pub open spec fn ready<T, O: Less<T>>(self, o: &O, s: Seq<T>) -> bool {
        &&& in_order(o, self.left(s))
        &&& in_order(o, self.right(s))
    }

    /// The output holds the merged runs.
    pub open spec fn done<T, O: Less<T>>(self, o: &O, s: Seq<T>, d: Seq<T>) -> bool {
        sorted_by(o, self.left(s) + self.right(s), d.subrange(self.out as int, self.end()))
    }
}

/// `b` differs from `a` in `[lo, hi)` at most.
pub open spec fn same_outside<T>(a: Seq<T>, b: Seq<T>, lo: int, hi: int) -> bool {
    &&& a.len() == b.len()
    &&& forall|i: int| 0 <= i < a.len() && !(lo <= i < hi) ==> #[trigger] b[i] == a[i]
}

/// `b` agrees with `a` in `[lo, hi)`.
pub open spec fn same_inside<T>(a: Seq<T>, b: Seq<T>, lo: int, hi: int) -> bool {
    &&& a.len() == b.len()
    &&& forall|i: int| lo <= i < hi ==> #[trigger] b[i] == a[i]
}

/// What the output and the rest of the runs hold.
spec fn held<T>(s: Seq<T>, d: Seq<T>, from: Merge, m: Merge) -> Multiset<T> {
    d.subrange(from.out as int, m.out as int).to_multiset().add(m.left(s).to_multiset()).add(m.right(s).to_multiset()).add(
        d.subrange(m.end(), from.end()).to_multiset(),
    )
}

/// The merge `from` has come to `m`: the front and the back of the output are
/// those of the merged runs, and what is left is to be merged in between.
spec fn merging<T, O: Less<T>>(o: &O, s: Seq<T>, d: Seq<T>, from: Merge, m: Merge) -> bool {
    &&& from.fits(s.len(), d.len())
    &&& from.l <= m.l <= m.lend <= from.lend
    &&& from.r <= m.r <= m.rend <= from.rend
    &&& m.out - from.out == (m.l - from.l) + (m.r - from.r)
    &&& held(s, d, from, m) == from.left(s).to_multiset().add(from.right(s).to_multiset())
    &&& forall|le: spec_fn(T, T) -> bool|
        #[trigger] o.follows(le) ==> d.subrange(from.out as int, m.out as int) + merged(le, m.left(s), m.right(s)) + d.subrange(m.end(), from.end()) == merged(
            le,
            from.left(s),
            from.right(s),
        )
}

proof fn lemma_merging_start<T, O: Less<T>>(o: &O, s: Seq<T>, d: Seq<T>, m: Merge)
    requires
        m.fits(s.len(), d.len()),
    ensures
        merging(o, s, d, m, m),
{
    let e = Seq::<T>::empty();
    assert(d.subrange(m.out as int, m.out as int) =~= e);
    assert(d.subrange(m.end(), m.end()) =~= e);
    e.to_multiset_ensures();
    assert(e.to_multiset() =~= Multiset::empty());
    assert(held(s, d, m, m) =~= m.left(s).to_multiset().add(m.right(s).to_multiset()));
    assert forall|le: spec_fn(T, T) -> bool| #[trigger] o.follows(le) implies e + merged(le, m.left(s), m.right(s)) + e == merged(le, m.left(s), m.right(s)) by {
        assert(e + merged(le, m.left(s), m.right(s)) + e =~= merged(le, m.left(s), m.right(s)));
    }
}

/// What lies outside of the output does not matter.
proof fn lemma_merging_frame<T, O: Less<T>>(o: &O, s: Seq<T>, d: Seq<T>, d2: Seq<T>, from: Merge, m: Merge)
    requires
        merging(o, s, d, from, m),
        same_inside(d, d2, from.out as int, from.end()),
    ensures
        merging(o, s, d2, from, m),
{
    assert(d2.subrange(from.out as int, m.out as int) =~= d.subrange(from.out as int, m.out as int));
    assert(d2.subrange(m.end(), from.end()) =~= d.subrange(m.end(), from.end()));
}

proof fn lemma_done_frame<T, O: Less<T>>(o: &O, s: Seq<T>, d: Seq<T>, d2: Seq<T>, m: Merge)
    requires
        m.fits(s.len(), d.len()),
        m.done(o, s, d),
        same_inside(d, d2, m.out as int, m.end()),
    ensures
        m.done(o, s, d2),
{
    assert(d2.subrange(m.out as int, m.end()) =~= d.subrange(m.out as int, m.end()));
}

/// One element to the front of the output: from the right run, or from the
/// left one.
spec fn front_step(m: Merge, t: bool) -> Merge {
    if t {
        Merge { r: (m.r + 1) as usize, out: (m.out + 1) as usize, ..m }
    } else {
        Merge { l: (m.l + 1) as usize, out: (m.out + 1) as usize, ..m }
    }
}

proof fn lemma_front<T, O: Less<T>>(o: &O, s: Seq<T>, d: Seq<T>, from: Merge, m: Merge, t: bool)
    requires
        merging(o, s, d, from, m),
        d.len() <= usize::MAX,
        t ==> m.r < m.rend,
        !t ==> m.l < m.lend,
        forall|le: spec_fn(T, T) -> bool|
            #[trigger] o.follows(le) ==> if t {
                m.l == m.lend || !le(s[m.l as int], s[m.r as int])
            } else {
                m.r == m.rend || le(s[m.l as int], s[m.r as int])
            },
    ensures
        merging(
            o,
            s,
            d.update(
                m.out as int,
                s[if t {
                    m.r as int
                } else {
                    m.l as int
                }],
            ),
            from,
            front_step(m, t),
        ),
{
    let v = s[if t {
        m.r as int
    } else {
        m.l as int
    }];
    let d2 = d.update(m.out as int, v);
    let m2 = front_step(m, t);
    let front = d.subrange(from.out as int, m.out as int);
    let back = d.subrange(m.end(), from.end());
    assert(m2.end() == m.end());
    assert(d2.subrange(from.out as int, m2.out as int) =~= front + seq![v]);
    assert(d2.subrange(m2.end(), from.end()) =~= back);
    vstd::seq_lib::lemma_multiset_commutative(front, seq![v]);
    if t {
        assert(m.right(s) =~= seq![v] + m2.right(s));
        vstd::seq_lib::lemma_multiset_commutative(seq![v], m2.right(s));
    } else {
        assert(m.left(s) =~= seq![v] + m2.left(s));
        vstd::seq_lib::lemma_multiset_commutative(seq![v], m2.left(s));
    }
    assert(held(s, d2, from, m2) =~= held(s, d, from, m));
    assert forall|le: spec_fn(T, T) -> bool| #[trigger] o.follows(le) implies (front + seq![v]) + merged(le, m2.left(s), m2.right(s)) + back == merged(
        le,
        from.left(s),
        from.right(s),
    ) by {
        let rest = merged(le, m2.left(s), m2.right(s));
        assert(merged(le, m.left(s), m.right(s)) =~= seq![v] + rest) by {
            if t {
                assert(m.right(s).skip(1) =~= m2.right(s));
                assert(m.right(s)[0] == v);
            } else {
                assert(m.left(s).skip(1) =~= m2.left(s));
                assert(m.left(s)[0] == v);
            }
        }
        assert((front + seq![v]) + rest + back =~= front + (seq![v] + rest) + back);
    }
}

/// One element to the back of the output: from the left run, or from the right
/// one.
spec fn back_step(m: Merge, u: bool) -> Merge {
    if u {
        Merge { lend: (m.lend - 1) as usize, ..m }
    } else {
        Merge { rend: (m.rend - 1) as usize, ..m }
    }
}

proof fn lemma_back<T, O: Less<T>>(o: &O, s: Seq<T>, d: Seq<T>, from: Merge, m: Merge, u: bool)
    requires
        merging(o, s, d, from, m),
        from.ready(o, s),
        d.len() <= usize::MAX,
        m.r < m.rend,
        m.l < m.lend,
        forall|le: spec_fn(T, T) -> bool| #[trigger] o.follows(le) ==> u == !le(s[m.lend - 1], s[m.rend - 1]),
    ensures
        merging(
            o,
            s,
            d.update(
                m.end() - 1,
                s[if u {
                    m.lend - 1
                } else {
                    m.rend - 1
                }],
            ),
            from,
            back_step(m, u),
        ),
{
    let v = s[if u {
        m.lend - 1
    } else {
        m.rend - 1
    }];
    let d2 = d.update(m.end() - 1, v);
    let m2 = back_step(m, u);
    let front = d.subrange(from.out as int, m.out as int);
    let back = d.subrange(m.end(), from.end());
    assert(m2.end() == m.end() - 1);
    assert(d2.subrange(from.out as int, m2.out as int) =~= front);
    assert(d2.subrange(m2.end(), from.end()) =~= seq![v] + back);
    vstd::seq_lib::lemma_multiset_commutative(seq![v], back);
    if u {
        assert(m.left(s) =~= m2.left(s) + seq![v]);
        vstd::seq_lib::lemma_multiset_commutative(m2.left(s), seq![v]);
    } else {
        assert(m.right(s) =~= m2.right(s) + seq![v]);
        vstd::seq_lib::lemma_multiset_commutative(m2.right(s), seq![v]);
    }
    assert(held(s, d2, from, m2) =~= held(s, d, from, m));
    assert forall|le: spec_fn(T, T) -> bool| #[trigger] o.follows(le) implies front + merged(le, m2.left(s), m2.right(s)) + (seq![v] + back) == merged(
        le,
        from.left(s),
        from.right(s),
    ) by {
        o.follows_total(le);
        let (x, y) = (m.left(s), m.right(s));
        lemma_inner_sorted(le, s, from.l as int, from.lend as int, m.l as int, m.lend as int);
        lemma_inner_sorted(le, s, from.r as int, from.rend as int, m.r as int, m.rend as int);
        lemma_inner_sorted(le, s, from.l as int, from.lend as int, m2.l as int, m2.lend as int);
        lemma_inner_sorted(le, s, from.r as int, from.rend as int, m2.r as int, m2.rend as int);
        lemma_merges_equal(le, x, y);
        lemma_merges_equal(le, m2.left(s), m2.right(s));
        if u {
            assert(x.drop_last() =~= m2.left(s));
            assert(x.last() == v);
        } else {
            assert(y.drop_last() =~= m2.right(s));
            assert(y.last() == v);
        }
        let rest = merged(le, m2.left(s), m2.right(s));
        assert(merged(le, x, y) == rest.push(v));
        assert(front + rest + (seq![v] + back) =~= front + rest.push(v) + back);
    }
}

/// A part of what is sorted is sorted.
proof fn lemma_inner_sorted<T>(le: spec_fn(T, T) -> bool, s: Seq<T>, lo: int, hi: int, a: int, b: int)
    requires
        0 <= lo <= a <= b <= hi <= s.len(),
        sorted(le, s.subrange(lo, hi)),
    ensures
        sorted(le, s.subrange(a, b)),
{
    let x = s.subrange(lo, hi);
    let y = s.subrange(a, b);
    assert forall|i: int, j: int| 0 <= i <= j < y.len() implies le(#[trigger] y[i], #[trigger] y[j]) by {
        assert(le(x[i + a - lo], x[j + a - lo]));
    }
}

/// Both runs are used up.
proof fn lemma_merging_end<T, O: Less<T>>(o: &O, s: Seq<T>, d: Seq<T>, from: Merge, m: Merge)
    requires
        merging(o, s, d, from, m),
        from.ready(o, s),
        m.l == m.lend,
        m.r == m.rend,
    ensures
        from.done(o, s, d),
{
    let front = d.subrange(from.out as int, m.out as int);
    let back = d.subrange(m.end(), from.end());
    let all = d.subrange(from.out as int, from.end());
    let e = Seq::<T>::empty();
    assert(m.left(s) =~= e);
    assert(m.right(s) =~= e);
    e.to_multiset_ensures();
    assert(e.to_multiset() =~= Multiset::empty());
    assert(all =~= front + back);
    vstd::seq_lib::lemma_multiset_commutative(front, back);
    vstd::seq_lib::lemma_multiset_commutative(from.left(s), from.right(s));
    assert(all.to_multiset() =~= held(s, d, from, m));
    assert forall|le: spec_fn(T, T) -> bool| #[trigger] o.follows(le) implies stable_sort_of(le, from.left(s) + from.right(s), all) by {
        o.follows_total(le);
        lemma_merged(le, from.left(s), from.right(s));
        assert(merged(le, e, e) =~= e);
        assert(front + e + back =~= all);
    }
}

/// A single merge from both ends, in counted stretches: the front takes the
/// smaller next element (the left one on a tie), the back the larger last
/// element (the right one on a tie). A stretch is as many steps as both ends can
/// take without meeting or running a run dry; the tail is merged from the front
/// alone.
fn merge_one<T: Copy, O: Less<T>>(src: &[T], dst: &mut [T], m: Merge, o: &O, Ghost(from): Ghost<Merge>)
    requires
        merging(o, src@, old(dst)@, from, m),
        from.ready(o, src@),
        all_accepted(o, src@),
    ensures
        from.done(o, src@, final(dst)@),
        same_outside(old(dst)@, final(dst)@, from.out as int, from.end()),
{
    let ghost s = src@;
    let ghost d0 = dst@;
    let dn: usize = dst.len();
    let mut m: Merge = m;
    let mut both = true;
    while both
        invariant
            s == src@,
            dn == dst@.len(),
            merging(o, s, dst@, from, m),
            from.ready(o, s),
            all_accepted(o, s),
            same_outside(d0, dst@, from.out as int, from.end()),
        decreases
            (m.lend - m.l) + (m.rend - m.r) + if both {
                1int
            } else {
                0
            },
    {
        let nl: usize = m.lend - m.l;
        let nr: usize = m.rend - m.r;
        let k: usize = (if nl < nr {
            nl
        } else {
            nr
        }) / 2;
        let mut i: usize = 0;
        let ghost start = m;
        while i < k
            invariant
                i <= k,
                s == src@,
                dn == dst@.len(),
                merging(o, s, dst@, from, m),
                from.ready(o, s),
                all_accepted(o, s),
                same_outside(d0, dst@, from.out as int, from.end()),
                (m.lend - m.l) + 2 * i >= 2 * k,
                (m.rend - m.r) + 2 * i >= 2 * k,
                (m.lend - m.l) + (m.rend - m.r) + 2 * i == (start.lend - start.l) + (start.rend - start.r),
            decreases k - i,
        {
            let t = o.less(src[m.r], src[m.l]);
            let u = o.less(src[m.rend - 1], src[m.lend - 1]);
            proof {
                lemma_front(o, s, dst@, from, m, t);
            }
            if t {
                dst[m.out] = src[m.r];
                m.r = m.r + 1;
            } else {
                dst[m.out] = src[m.l];
                m.l = m.l + 1;
            }
            m.out = m.out + 1;
            proof {
                lemma_back(o, s, dst@, from, m, u);
            }
            let last: usize = m.out + (m.lend - m.l) + (m.rend - m.r) - 1;
            if u {
                dst[last] = src[m.lend - 1];
                m.lend = m.lend - 1;
            } else {
                dst[last] = src[m.rend - 1];
                m.rend = m.rend - 1;
            }
            i += 1;
        }
        both = k > 0;
    }
    while m.l < m.lend || m.r < m.rend
        invariant
            s == src@,
            dn == dst@.len(),
            merging(o, s, dst@, from, m),
            from.ready(o, s),
            all_accepted(o, s),
            same_outside(d0, dst@, from.out as int, from.end()),
        decreases (m.lend - m.l) + (m.rend - m.r),
    {
        let t = m.r < m.rend && (m.l == m.lend || o.less(src[m.r], src[m.l]));
        proof {
            lemma_front(o, s, dst@, from, m, t);
        }
        if t {
            dst[m.out] = src[m.r];
            m.r = m.r + 1;
        } else {
            dst[m.out] = src[m.l];
            m.l = m.l + 1;
        }
        m.out = m.out + 1;
    }
    proof {
        lemma_merging_end(o, s, dst@, from, m);
    }
}

/// Two merges advanced in lock step from the front, in counted stretches. The
/// tails are merged one by one.
fn merge_two<T: Copy, O: Less<T>>(src: &[T], dst: &mut [T], a: Merge, b: Merge, o: &O)
    requires
        a.fits(src@.len(), old(dst)@.len()),
        b.fits(src@.len(), old(dst)@.len()),
        a.ready(o, src@),
        b.ready(o, src@),
        a.end() <= b.out || b.end() <= a.out,
        all_accepted(o, src@),
    ensures
        a.done(o, src@, final(dst)@),
        b.done(o, src@, final(dst)@),
        final(dst)@.len() == old(dst)@.len(),
        forall|i: int| 0 <= i < old(dst)@.len() && !(a.out <= i < a.end()) && !(b.out <= i < b.end()) ==> #[trigger] final(dst)@[i] == old(dst)@[i],
{
    let ghost s = src@;
    let ghost d0 = dst@;
    let dn: usize = dst.len();
    let mut x: Merge = a;
    let mut y: Merge = b;
    proof {
        lemma_merging_start(o, s, dst@, a);
        lemma_merging_start(o, s, dst@, b);
    }
    while x.l < x.lend && x.r < x.rend && y.l < y.lend && y.r < y.rend
        invariant
            s == src@,
            dn == dst@.len(),
            merging(o, s, dst@, a, x),
            merging(o, s, dst@, b, y),
            a.end() <= b.out || b.end() <= a.out,
            all_accepted(o, s),
            dst@.len() == d0.len(),
            forall|i: int| 0 <= i < d0.len() && !(a.out <= i < a.end()) && !(b.out <= i < b.end()) ==> #[trigger] dst@[i] == d0[i],
        decreases (x.lend - x.l) + (x.rend - x.r),
    {
        let ta = o.less(src[x.r], src[x.l]);
        let tb = o.less(src[y.r], src[y.l]);
        let ghost before = dst@;
        proof {
            lemma_front(o, s, dst@, a, x, ta);
        }
        if ta {
            dst[x.out] = src[x.r];
            x.r = x.r + 1;
        } else {
            dst[x.out] = src[x.l];
            x.l = x.l + 1;
        }
        x.out = x.out + 1;
        let ghost between = dst@;
        proof {
            lemma_merging_frame(o, s, before, between, b, y);
            lemma_front(o, s, dst@, b, y, tb);
        }
        if tb {
            dst[y.out] = src[y.r];
            y.r = y.r + 1;
        } else {
            dst[y.out] = src[y.l];
            y.l = y.l + 1;
        }
        y.out = y.out + 1;
        proof {
            lemma_merging_frame(o, s, between, dst@, a, x);
        }
    }
    let ghost before = dst@;
    merge_one(src, dst, x, o, Ghost(a));
    let ghost between = dst@;
    proof {
        lemma_merging_frame(o, s, before, between, b, y);
    }
    merge_one(src, dst, y, o, Ghost(b));
    proof {
        lemma_done_frame(o, s, between, dst@, a);
    }
}

/// Where the merge of two sorted runs is split at output position `k`: `i`
/// elements of the left run and `j` of the right one are its first ones.
pub open spec fn splits<T>(le: spec_fn(T, T) -> bool, x: Seq<T>, y: Seq<T>, i: int, j: int) -> bool {
    &&& forall|a: int, b: int| 0 <= a < i && j <= b < y.len() ==> le(#[trigger] x[a], #[trigger] y[b])
    &&& forall|a: int, b: int| i <= a < x.len() && 0 <= b < j ==> !le(#[trigger] x[a], #[trigger] y[b])
}

/// Splits the merge of the runs at output position `k`: the smallest `i`
/// (`j = k - i`) such that `R[j-1]` sorts before `L[i]`, so that `L[0,i)` and
/// `R[0,j)` are exactly the first `k` elements of the stable merge. A binary
/// search.
fn merge_split<T: Copy, O: Less<T>>(src: &[T], m: Merge, k: usize, o: &O) -> (i: usize)
    requires
        m.l <= m.lend <= src@.len(),
        m.r <= m.rend <= src@.len(),
        k <= (m.lend - m.l) + (m.rend - m.r),
        m.ready(o, src@),
        all_accepted(o, src@),
    ensures
        i <= m.lend - m.l,
        i <= k,
        k - i <= m.rend - m.r,
        forall|le: spec_fn(T, T) -> bool| #[trigger] o.follows(le) ==> splits(le, m.left(src@), m.right(src@), i as int, k - i),
{
    let ghost x = m.left(src@);
    let ghost y = m.right(src@);
    let p: usize = m.lend - m.l;
    let q: usize = m.rend - m.r;
    let first: usize = if k > q {
        k - q
    } else {
        0
    };
    let mut lo: usize = first;
    let mut hi: usize = if k < p {
        k
    } else {
        p
    };
    let ghost top = hi;
    while lo < hi
        invariant
            p == m.lend - m.l,
            q == m.rend - m.r,
            m.l <= m.lend <= src@.len(),
            m.r <= m.rend <= src@.len(),
            x == m.left(src@),
            y == m.right(src@),
            first <= lo <= hi <= top,
            top <= p,
            top <= k,
            k <= first + q,
            m.ready(o, src@),
            all_accepted(o, src@),
            forall|le: spec_fn(T, T) -> bool, i: int| #![trigger o.follows(le), x[i]] o.follows(le) && first <= i < lo ==> le(x[i], y[k - i - 1]),
            forall|le: spec_fn(T, T) -> bool, i: int| #![trigger o.follows(le), x[i]] o.follows(le) && hi <= i < top ==> !le(x[i], y[k - i - 1]),
        decreases hi - lo,
    {
        let i: usize = lo + (hi - lo) / 2;
        let before = o.less(src[m.r + (k - i - 1)], src[m.l + i]);
        assert(src@[m.r + (k - i - 1)] == y[k - i - 1]);
        assert(src@[m.l + i] == x[i as int]);
        proof {
            assert forall|le: spec_fn(T, T) -> bool, h: int| #![trigger o.follows(le), x[h]] o.follows(le) && first <= h <= i && !before implies le(x[h], y[k - h - 1]) by {
                o.follows_total(le);
                assert(le(x[h], x[i as int]));
                assert(le(x[i as int], y[k - i - 1]));
                assert(le(y[k - i - 1], y[k - h - 1]));
            }
            assert forall|le: spec_fn(T, T) -> bool, h: int| #![trigger o.follows(le), x[h]] o.follows(le) && i <= h < top && before implies !le(x[h], y[k - h - 1]) by {
                o.follows_total(le);
                if le(x[h], y[k - h - 1]) {
                    assert(le(x[i as int], x[h]));
                    assert(le(y[k - h - 1], y[k - i - 1]));
                    assert(le(x[i as int], y[k - h - 1]));
                    assert(le(x[i as int], y[k - i - 1]));
                }
            }
        }
        if !before {
            lo = i + 1;
        } else {
            hi = i;
        }
    }
    proof {
        let (i, j) = (lo as int, k - lo);
        assert forall|le: spec_fn(T, T) -> bool| #[trigger] o.follows(le) implies splits(le, x, y, i, j) by {
            o.follows_total(le);
            assert forall|a: int, b: int| 0 <= a < i && j <= b < y.len() implies le(#[trigger] x[a], #[trigger] y[b]) by {
                assert(i > first);
                assert(le(x[a], x[i - 1]));
                assert(le(x[i - 1], y[k - (i - 1) - 1]));
                assert(le(y[j], y[b]));
                assert(le(x[a], y[j]));
            }
            assert forall|a: int, b: int| i <= a < x.len() && 0 <= b < j implies !le(#[trigger] x[a], #[trigger] y[b]) by {
                assert(i < top);
                if le(x[a], y[b]) {
                    assert(le(x[i], x[a]));
                    assert(le(y[b], y[j - 1]));
                    assert(le(x[i], y[b]));
                    assert(le(x[i], y[j - 1]));
                    assert(!le(x[i], y[k - i - 1]));
                }
            }
        }
    }
    lo
}

/// The halves of a split merge make up the whole.
proof fn lemma_split_done<T, O: Less<T>>(o: &O, s: Seq<T>, d: Seq<T>, m: Merge, a: Merge, b: Merge)
    requires
        m.fits(s.len(), d.len()),
        m.ready(o, s),
        a.l == m.l,
        a.lend == b.l,
        b.lend == m.lend,
        a.r == m.r,
        a.rend == b.r,
        b.rend == m.rend,
        m.l <= a.lend <= m.lend,
        m.r <= a.rend <= m.rend,
        a.out == m.out,
        a.end() == b.out,
        a.done(o, s, d),
        b.done(o, s, d),
        forall|le: spec_fn(T, T) -> bool| #[trigger] o.follows(le) ==> splits(le, m.left(s), m.right(s), a.lend - a.l, a.rend - a.r),
    ensures
        m.done(o, s, d),
{
    let (l1, l2, r1, r2) = (a.left(s), b.left(s), a.right(s), b.right(s));
    let da = d.subrange(a.out as int, a.end());
    let db = d.subrange(b.out as int, b.end());
    let all = d.subrange(m.out as int, m.end());
    assert(b.end() == m.end());
    assert(all =~= da + db);
    assert(m.left(s) =~= l1 + l2);
    assert(m.right(s) =~= r1 + r2);
    lemma_permutation_add(l1 + r1, l2 + r2, da, db);
    lemma_permutation_swap(l2, r1);
    lemma_permutation_add(l1, l2 + r1, l1, r1 + l2);
    lemma_permutation_add(l1 + (l2 + r1), r2, l1 + (r1 + l2), r2);
    assert(l1 + (l2 + r1) + r2 =~= m.left(s) + m.right(s));
    assert(l1 + (r1 + l2) + r2 =~= (l1 + r1) + (l2 + r2));
    assert forall|le: spec_fn(T, T) -> bool| #[trigger] o.follows(le) implies stable_sort_of(le, m.left(s) + m.right(s), all) by {
        o.follows_total(le);
        let (x, y) = (m.left(s), m.right(s));
        let (i, j) = (a.lend - a.l, a.rend - a.r);
        assert(splits(le, x, y, i, j));
        assert(untied(le, l2, r1)) by {
            assert forall|p: int, q: int| 0 <= p < l2.len() && 0 <= q < r1.len() implies !tied(le, #[trigger] l2[p], #[trigger] r1[q]) by {
                assert(l2[p] == x[p + i]);
                assert(r1[q] == y[q]);
            }
        }
        lemma_stable_swap(le, l2, r1);
        lemma_stable_add(le, l1, l2 + r1, l1, r1 + l2);
        lemma_stable_add(le, l1 + (l2 + r1), r2, l1 + (r1 + l2), r2);
        lemma_stable_add(le, l1 + r1, l2 + r2, da, db);
        lemma_stable_trans(le, x + y, (l1 + r1) + (l2 + r2), all);
        assert forall|p: int, q: int| 0 <= p < da.len() && 0 <= q < db.len() implies le(#[trigger] da[p], #[trigger] db[q]) by {
            let u = lemma_permutation_member(da, l1 + r1, p);
            let v = lemma_permutation_member(db, l2 + r2, q);
            if u < l1.len() {
                assert(da[p] == x[u]);
                if v < l2.len() {
                    assert(db[q] == x[v + i]);
                    assert(le(x[u], x[v + i]));
                } else {
                    assert(db[q] == y[v - l2.len() + j]);
                }
            } else {
                assert(da[p] == y[u - l1.len()]);
                if v < l2.len() {
                    assert(db[q] == x[v + i]);
                    assert(!le(x[v + i], y[u - l1.len()]));
                } else {
                    assert(db[q] == y[v - l2.len() + j]);
                    assert(le(y[u - l1.len()], y[v - l2.len() + j]));
                }
            }
        }
        lemma_sorted_add(le, da, db);
    }
}

// ---- one level -----------------------------------------------------------------------------------

/// One level of merging, two independent merges at a time. While the pairs are
/// short, two pairs advance together; once a pair is long, it is split at its
/// middle output position into two halves that advance together.
pub struct Level {
    pub pending: Option<Merge>,
}

/// The merge of the neighbouring runs `[lo, mid)` and `[mid, hi)`.
pub open spec fn pair(lo: int, mid: int, hi: int) -> Merge {
    Merge { l: lo as usize, lend: mid as usize, r: mid as usize, rend: hi as usize, out: lo as usize }
}

/// `[lo, hi)` of `d` is that of `s`, sorted.
pub open spec fn piece_sorted<T, O: Less<T>>(o: &O, s: Seq<T>, d: Seq<T>, lo: int, hi: int) -> bool {
    sorted_by(o, s.subrange(lo, hi), d.subrange(lo, hi))
}

/// The pair that waits for a partner.
pub open spec fn waits<T, O: Less<T>>(o: &O, s: Seq<T>, p: Option<Merge>) -> bool {
    p matches Some(m) ==> m == pair(m.l as int, m.lend as int, m.rend as int) && m.fits(s.len(), s.len()) && m.ready(o, s)
}

/// A run in order is its own stable sort.
proof fn lemma_in_order_piece<T, O: Less<T>>(o: &O, s: Seq<T>, d: Seq<T>, lo: int, hi: int)
    requires
        0 <= lo <= hi <= s.len(),
        hi <= d.len(),
        in_order(o, s.subrange(lo, hi)),
        d.subrange(lo, hi) == s.subrange(lo, hi),
    ensures
        piece_sorted(o, s, d, lo, hi),
{
}

/// Two runs that follow each other in order are one.
proof fn lemma_joined<T, O: Less<T>>(o: &O, s: Seq<T>, lo: int, mid: int, hi: int)
    requires
        0 <= lo < mid <= hi <= s.len(),
        in_order(o, s.subrange(lo, mid)),
        in_order(o, s.subrange(mid, hi)),
        mid == hi || forall|le: spec_fn(T, T) -> bool| #[trigger] o.follows(le) ==> le(s[mid - 1], s[mid]),
    ensures
        in_order(o, s.subrange(lo, hi)),
{
    let (x, y) = (s.subrange(lo, mid), s.subrange(mid, hi));
    assert(s.subrange(lo, hi) =~= x + y);
    assert forall|le: spec_fn(T, T) -> bool| #[trigger] o.follows(le) implies sorted(le, s.subrange(lo, hi)) by {
        o.follows_total(le);
        assert forall|i: int, j: int| 0 <= i < x.len() && 0 <= j < y.len() implies le(#[trigger] x[i], #[trigger] y[j]) by {
            assert(le(x[i], x[mid - lo - 1]));
            assert(le(s[mid - 1], s[mid]));
            assert(le(y[0], y[j]));
            assert(le(x[i], y[0]));
        }
        lemma_sorted_add(le, x, y);
    }
}

impl Level {
    /// No pair waits.
    fn new() -> (r: Self)
        ensures
            r.pending is None,
    {
        Level { pending: None }
    }

    /// Merges `src[lo, mid)` and `src[mid, hi)`, both sorted, into
    /// `dst[lo, hi)`, or keeps them for the next pair.
    fn add<T: Copy, O: Less<T>>(&mut self, src: &[T], dst: &mut [T], lo: usize, mid: usize, hi: usize, o: &O)
        requires
            lo < mid <= hi <= src@.len(),
            src@.len() == old(dst)@.len(),
            in_order(o, src@.subrange(lo as int, mid as int)),
            in_order(o, src@.subrange(mid as int, hi as int)),
            all_accepted(o, src@),
            waits(o, src@, old(self).pending),
            old(self).pending matches Some(m) ==> m.rend <= lo,
        ensures
            final(dst)@.len() == old(dst)@.len(),
            ({
                let was = old(self).pending;
                let now = final(self).pending;
                ||| was is None && now == Some(pair(lo as int, mid as int, hi as int)) && final(dst)@ == old(dst)@
                ||| now == was && piece_sorted(o, src@, final(dst)@, lo as int, hi as int) && same_outside(old(dst)@, final(dst)@, lo as int, hi as int)
                ||| now is None && (was matches Some(m) && piece_sorted(o, src@, final(dst)@, lo as int, hi as int) && piece_sorted(
                    o,
                    src@,
                    final(dst)@,
                    m.l as int,
                    m.rend as int,
                ) && forall|i: int| 0 <= i < src@.len() && !(m.l <= i < m.rend) && !(lo <= i < hi) ==> #[trigger] final(dst)@[i] == old(dst)@[i])
            }),
    {
        let ghost s = src@;
        let ghost d0 = dst@;
        if mid == hi || !o.less(src[mid], src[mid - 1]) {
            copy_forward(src, lo, dst, lo, hi - lo);
            proof {
                lemma_joined(o, s, lo as int, mid as int, hi as int);
                assert(dst@.subrange(lo as int, hi as int) =~= s.subrange(lo as int, hi as int));
                lemma_in_order_piece(o, s, dst@, lo as int, hi as int);
            }
            return;
        }
        let m = Merge { l: lo, lend: mid, r: mid, rend: hi, out: lo };
        let p: usize = mid - lo;
        let q: usize = hi - mid;
        assert(m.left(s) + m.right(s) =~= s.subrange(lo as int, hi as int));
        if p < SPLIT_WIDTH && q < SPLIT_WIDTH {
            match self.pending {
                None => {
                    self.pending = Some(m);
                },
                Some(waiting) => {
                    merge_two(src, dst, waiting, m, o);
                    assert(waiting.left(s) + waiting.right(s) =~= s.subrange(waiting.l as int, waiting.rend as int));
                    self.pending = None;
                },
            }
            return;
        }
        let k: usize = (hi - lo) / 2;
        let i: usize = merge_split(src, m, k, o);
        let j: usize = k - i;
        let a = Merge { l: lo, lend: lo + i, r: mid, rend: mid + j, out: lo };
        let b = Merge { l: lo + i, lend: mid, r: mid + j, rend: hi, out: lo + k };
        proof {
            assert forall|le: spec_fn(T, T) -> bool| #[trigger] o.follows(le) implies sorted(le, a.left(s)) && sorted(le, a.right(s)) && sorted(le, b.left(s)) && sorted(le, b.right(s)) by {
                lemma_inner_sorted(le, s, lo as int, mid as int, lo as int, lo + i);
                lemma_inner_sorted(le, s, lo as int, mid as int, lo + i, mid as int);
                lemma_inner_sorted(le, s, mid as int, hi as int, mid as int, mid + j);
                lemma_inner_sorted(le, s, mid as int, hi as int, mid + j, hi as int);
            }
        }
        merge_two(src, dst, a, b, o);
        proof {
            lemma_split_done(o, s, dst@, m, a, b);
        }
    }

    /// Merges the pair that found no partner.
    fn finish<T: Copy, O: Less<T>>(self, src: &[T], dst: &mut [T], o: &O)
        requires
            src@.len() == old(dst)@.len(),
            all_accepted(o, src@),
            waits(o, src@, self.pending),
        ensures
            final(dst)@.len() == old(dst)@.len(),
            match self.pending {
                Some(m) => piece_sorted(o, src@, final(dst)@, m.l as int, m.rend as int) && same_outside(old(dst)@, final(dst)@, m.l as int, m.rend as int),
                None => final(dst)@ == old(dst)@,
            },
    {
        match self.pending {
            Some(m) => {
                proof {
                    lemma_merging_start(o, src@, dst@, m);
                    assert(m.left(src@) + m.right(src@) =~= src@.subrange(m.l as int, m.rend as int));
                }
                merge_one(src, dst, m, o, Ghost(m));
            },
            None => {},
        }
    }
}

// ---- natural runs --------------------------------------------------------------------------------

/// `b` holds the elements of `a`; where the comparison follows an order, equal
/// elements have kept theirs.
pub open spec fn reordered<T, O: Less<T>>(o: &O, a: Seq<T>, b: Seq<T>) -> bool {
    &&& permutation(a, b)
    &&& forall|le: spec_fn(T, T) -> bool| #[trigger] o.follows(le) ==> stable(le, a, b)
}

/// The first `r + 1` of the boundaries `b` cut `s` into runs in order.
pub open spec fn runs_in<T, O: Less<T>>(o: &O, s: Seq<T>, b: Seq<u32>, r: int) -> bool {
    &&& 1 <= r < b.len()
    &&& b[0] == 0
    &&& b[r] == s.len()
    &&& forall|i: int, j: int| 0 <= i < j <= r ==> #[trigger] b[i] < #[trigger] b[j]
    &&& forall|i: int| 0 <= i < r ==> in_order(o, s.subrange(#[trigger] b[i] as int, b[i + 1] as int))
}

/// Pieces that are rearranged on their own make up a rearranged whole.
proof fn lemma_pieces<T, O: Less<T>>(o: &O, s: Seq<T>, d: Seq<T>, b: Seq<u32>, r: int, m: int)
    requires
        0 <= m <= r < b.len(),
        s.len() == d.len(),
        b[0] == 0,
        b[r] <= s.len(),
        forall|i: int, j: int| 0 <= i < j <= r ==> #[trigger] b[i] < #[trigger] b[j],
        forall|i: int| 0 <= i < r ==> piece_sorted(o, s, d, #[trigger] b[i] as int, b[i + 1] as int),
    ensures
        reordered(o, s.take(b[m] as int), d.take(b[m] as int)),
    decreases m,
{
    if m == 0 {
        assert(s.take(0) =~= d.take(0));
    } else {
        lemma_pieces(o, s, d, b, r, m - 1);
        let (lo, hi) = (b[m - 1] as int, b[m] as int);
        assert(lo < hi <= s.len()) by {
            if m < r {
                assert(b[m] < b[r]);
            }
        }
        assert(piece_sorted(o, s, d, lo, hi));
        assert(s.take(hi) =~= s.take(lo) + s.subrange(lo, hi));
        assert(d.take(hi) =~= d.take(lo) + d.subrange(lo, hi));
        lemma_permutation_add(s.take(lo), s.subrange(lo, hi), d.take(lo), d.subrange(lo, hi));
        assert forall|le: spec_fn(T, T) -> bool| #[trigger] o.follows(le) implies stable(le, s.take(hi), d.take(hi)) by {
            lemma_stable_add(le, s.take(lo), s.subrange(lo, hi), d.take(lo), d.subrange(lo, hi));
        }
    }
}

/// What stands outside of a piece does not matter to it.
proof fn lemma_piece_frame<T, O: Less<T>>(o: &O, s: Seq<T>, d: Seq<T>, d2: Seq<T>, lo: int, hi: int)
    requires
        0 <= lo <= hi <= d.len(),
        piece_sorted(o, s, d, lo, hi),
        same_inside(d, d2, lo, hi),
    ensures
        piece_sorted(o, s, d2, lo, hi),
{
    assert(d2.subrange(lo, hi) =~= d.subrange(lo, hi));
}

/// The pairs before the `w`-th are merged, but for the one that waits, number
/// `at`.
#[verifier::opaque]
spec fn settled<T, O: Less<T>>(o: &O, s: Seq<T>, d: Seq<T>, c: Seq<u32>, w: int, waiting: Option<Merge>, at: int) -> bool {
    &&& waits(o, s, waiting)
    &&& waiting matches Some(m) ==> 0 <= at < w && m == pair(c[2 * at] as int, c[2 * at + 1] as int, c[2 * at + 2] as int)
    &&& forall|p: int| 0 <= p < w && !(waiting is Some && p == at) ==> piece_sorted(o, s, d, c[#[trigger] (2 * p)] as int, c[2 * p + 2] as int)
}

/// A pair that is not touched stays settled.
proof fn lemma_settled_frame<T, O: Less<T>>(o: &O, s: Seq<T>, d: Seq<T>, d2: Seq<T>, c: Seq<u32>, r: int, p: int, lo: int, hi: int)
    requires
        runs_in(o, s, c, r),
        0 <= p,
        2 * p + 2 <= r,
        s.len() == d.len(),
        piece_sorted(o, s, d, c[2 * p] as int, c[2 * p + 2] as int),
        d.len() == d2.len(),
        c[2 * p + 2] <= lo || hi <= c[2 * p],
        forall|i: int| c[2 * p] <= i < c[2 * p + 2] && !(lo <= i < hi) ==> #[trigger] d2[i] == d[i],
    ensures
        piece_sorted(o, s, d2, c[2 * p] as int, c[2 * p + 2] as int),
{
    assert(c[2 * p] < c[2 * p + 2]);
    assert(2 * p + 2 < r ==> c[2 * p + 2] < c[r]);
    lemma_piece_frame(o, s, d, d2, c[2 * p] as int, c[2 * p + 2] as int);
}

/// Boundaries ascend.
proof fn lemma_boundaries<T, O: Less<T>>(o: &O, s: Seq<T>, c: Seq<u32>, r: int, i: int, j: int)
    requires
        runs_in(o, s, c, r),
        0 <= i <= j <= r,
    ensures
        c[i] <= c[j] <= s.len(),
        i < j ==> c[i] < c[j],
{
    assert(i < j ==> c[i] < c[j]);
    assert(j < r ==> c[j] < c[r]);
}

/// The pair number `w` was added.
proof fn lemma_settled_step<T, O: Less<T>>(o: &O, s: Seq<T>, d: Seq<T>, d2: Seq<T>, c: Seq<u32>, r: int, w: int, was: Option<Merge>, now: Option<Merge>, at: int) -> (next: int)
    requires
        runs_in(o, s, c, r),
        0 <= w,
        2 * w + 2 <= r,
        s.len() <= 0xFFFF_FFFF,
        s.len() == d.len() == d2.len(),
        settled(o, s, d, c, w, was, at),
        ({
            let (lo, mid, hi) = (c[2 * w] as int, c[2 * w + 1] as int, c[2 * w + 2] as int);
            ||| was is None && now == Some(pair(lo, mid, hi)) && d2 == d
            ||| now == was && piece_sorted(o, s, d2, lo, hi) && same_outside(d, d2, lo, hi)
            ||| now is None && (was matches Some(m) && piece_sorted(o, s, d2, lo, hi) && piece_sorted(o, s, d2, m.l as int, m.rend as int) && forall|i: int|
                0 <= i < s.len() && !(m.l <= i < m.rend) && !(lo <= i < hi) ==> #[trigger] d2[i] == d[i])
        }),
    ensures
        settled(o, s, d2, c, w + 1, now, next),
{
    reveal(settled);
    let (lo, mid, hi) = (c[2 * w] as int, c[2 * w + 1] as int, c[2 * w + 2] as int);
    lemma_boundaries(o, s, c, r, 2 * w, 2 * w + 1);
    lemma_boundaries(o, s, c, r, 2 * w + 1, 2 * w + 2);
    assert(in_order(o, s.subrange(c[2 * w] as int, c[2 * w + 1] as int)));
    assert(in_order(o, s.subrange(c[2 * w + 1] as int, c[2 * w + 1 + 1] as int)));
    let next = if now is Some && was is None {
        w
    } else {
        at
    };
    assert forall|p: int| 0 <= p < w + 1 && !(now is Some && p == next) implies piece_sorted(o, s, d2, c[#[trigger] (2 * p)] as int, c[2 * p + 2] as int) by {
        if p < w {
            lemma_boundaries(o, s, c, r, 2 * p, 2 * p + 2);
            lemma_boundaries(o, s, c, r, 2 * p + 2, 2 * w);
            if was is Some && p == at {
                assert(now is None);
            } else {
                assert(piece_sorted(o, s, d, c[2 * p] as int, c[2 * p + 2] as int));
                if was is Some {
                    let m = was->0;
                    if p < at {
                        lemma_boundaries(o, s, c, r, 2 * p + 2, 2 * at);
                        lemma_boundaries(o, s, c, r, 2 * at, 2 * at + 2);
                    } else {
                        lemma_boundaries(o, s, c, r, 2 * at + 2, 2 * p);
                    }
                    lemma_boundaries(o, s, c, r, 2 * at, 2 * at + 2);
                    assert(m.l == c[2 * at] && m.rend == c[2 * at + 2]);
                    assert(forall|i: int| c[2 * p] <= i < c[2 * p + 2] ==> #[trigger] d2[i] == d[i]);
                }
                lemma_settled_frame(o, s, d, d2, c, r, p, lo, hi);
            }
        }
    }
    next
}

/// The last run has no partner and was copied.
proof fn lemma_last_run<T, O: Less<T>>(o: &O, s: Seq<T>, d: Seq<T>, d2: Seq<T>, c: Seq<u32>, r: int, w: int, waiting: Option<Merge>, at: int)
    requires
        runs_in(o, s, c, r),
        0 <= w,
        2 * w + 1 == r,
        s.len() == d.len(),
        settled(o, s, d, c, w, waiting, at),
        d2 == d.take(c[r - 1] as int) + s.subrange(c[r - 1] as int, s.len() as int) + d.skip(s.len() as int),
    ensures
        settled(o, s, d2, c, w, waiting, at),
        d2.len() == d.len(),
        piece_sorted(o, s, d2, c[r - 1] as int, s.len() as int),
{
    reveal(settled);
    let (last, n) = (c[r - 1] as int, s.len() as int);
    lemma_boundaries(o, s, c, r, r - 1, r);
    assert(d2.subrange(last, n) =~= s.subrange(last, n));
    assert(in_order(o, s.subrange(c[r - 1] as int, c[r - 1 + 1] as int)));
    lemma_in_order_piece(o, s, d2, last, n);
    assert forall|p: int| 0 <= p < w && !(waiting is Some && p == at) implies piece_sorted(o, s, d2, c[#[trigger] (2 * p)] as int, c[2 * p + 2] as int) by {
        lemma_boundaries(o, s, c, r, 2 * p + 2, r - 1);
        lemma_settled_frame(o, s, d, d2, c, r, p, last, n);
    }
}

/// The runs of a level.
#[verifier::opaque]
spec fn level_runs<T, O: Less<T>>(o: &O, s: Seq<T>, c: Seq<u32>, r: int) -> bool {
    runs_in(o, s, c, r)
}

/// The first `w` boundaries of the next level stand in `b`.
#[verifier::opaque]
spec fn halved(b: Seq<u32>, c: Seq<u32>, w: int) -> bool {
    forall|p: int| 0 <= p < w ==> #[trigger] b[p] == c[2 * p]
}

proof fn lemma_halved(b: Seq<u32>, c: Seq<u32>, w: int)
    requires
        halved(b, c, w),
        0 <= w < b.len(),
    ensures
        halved(b.update(w, c[2 * w]), c, w + 1),
{
    reveal(halved);
    let e = b.update(w, c[2 * w]);
    assert forall|p: int| 0 <= p < w + 1 implies #[trigger] e[p] == c[2 * p] by {
        if p < w {
            assert(b[p] == c[2 * p]);
        }
    }
}

/// Adds the pair number `w` to the level.
fn merge_pair<T: Copy, O: Less<T>>(
    level: &mut Level,
    src: &[T],
    dst: &mut [T],
    lo: usize,
    mid: usize,
    hi: usize,
    o: &O,
    Ghost(c): Ghost<Seq<u32>>,
    Ghost(r): Ghost<int>,
    Ghost(w): Ghost<int>,
    Ghost(at): Ghost<int>,
) -> (next: Ghost<int>)
    requires
        src@.len() == old(dst)@.len() <= 0xFFFF_FFFF,
        level_runs(o, src@, c, r),
        all_accepted(o, src@),
        0 <= w,
        2 * w + 2 <= r,
        lo == c[2 * w],
        mid == c[2 * w + 1],
        hi == c[2 * w + 2],
        settled(o, src@, old(dst)@, c, w, old(level).pending, at),
    ensures
        final(dst)@.len() == old(dst)@.len(),
        settled(o, src@, final(dst)@, c, w + 1, final(level).pending, next@),
{
    let ghost s = src@;
    let ghost before = dst@;
    let ghost was = level.pending;
    proof {
        reveal(settled);
        reveal(level_runs);
        lemma_boundaries(o, s, c, r, 2 * w, 2 * w + 1);
        lemma_boundaries(o, s, c, r, 2 * w + 1, 2 * w + 2);
        if was is Some {
            lemma_boundaries(o, s, c, r, 2 * at + 2, 2 * w);
        }
        assert(in_order(o, s.subrange(c[2 * w] as int, c[2 * w + 1] as int)));
        assert(in_order(o, s.subrange(c[2 * w + 1] as int, c[2 * w + 1 + 1] as int)));
    }
    level.add(src, dst, lo, mid, hi, o);
    let ghost mut next = 0int;
    proof {
        next = lemma_settled_step(o, s, before, dst@, c, r, w, was, level.pending, at);
    }
    Ghost(next)
}

/// Merges the runs of `src` pairwise into `dst`. Returns how many are left.
fn merge_level<T: Copy, O: Less<T>>(src: &[T], dst: &mut [T], b: &mut Vec<u32>, r: usize, o: &O) -> (w: usize)
    requires
        r > 1,
        src@.len() == old(dst)@.len() <= 0xFFFF_FFFF,
        runs_in(o, src@, old(b)@, r as int),
        all_accepted(o, src@),
    ensures
        w == (r + 1) / 2,
        final(dst)@.len() == src@.len(),
        runs_in(o, final(dst)@, final(b)@, w as int),
        reordered(o, src@, final(dst)@),
{
    proof {
        reveal(level_runs);
    }
    let w: usize = merge_pairs(src, dst, b, r, o);
    w
}

/// The pairs of a level, one after the other.
fn merge_pairs<T: Copy, O: Less<T>>(src: &[T], dst: &mut [T], b: &mut Vec<u32>, r: usize, o: &O) -> (w: usize)
    requires
        1 < r < old(b)@.len(),
        src@.len() == old(dst)@.len() <= 0xFFFF_FFFF,
        level_runs(o, src@, old(b)@, r as int),
        all_accepted(o, src@),
    ensures
        w == (r + 1) / 2,
        final(dst)@.len() == src@.len(),
        level_runs(o, final(dst)@, final(b)@, w as int),
        reordered(o, src@, final(dst)@),
{
    let n: usize = src.len();
    let ghost s = src@;
    let ghost c = b@;
    let mut level = Level::new();
    let mut w: usize = 0;
    let mut k: usize = 0;
    let ghost mut at: int = 0;
    assert(settled(o, s, dst@, c, 0, level.pending, at)) by {
        reveal(settled);
    }
    assert(halved(b@, c, 0)) by {
        reveal(halved);
    }
    while k + 1 < r
        invariant
            n == s.len() == dst@.len(),
            n <= 0xFFFF_FFFF,
            s == src@,
            1 < r < c.len() == b@.len(),
            level_runs(o, s, c, r as int),
            all_accepted(o, s),
            k == 2 * w,
            k <= r,
            halved(b@, c, w as int),
            forall|p: int| w <= p < c.len() ==> #[trigger] b@[p] == c[p],
            settled(o, s, dst@, c, w as int, level.pending, at),
        decreases r - k,
    {
        let lo: usize = b[k] as usize;
        let mid: usize = b[k + 1] as usize;
        let hi: usize = b[k + 2] as usize;
        let Ghost(next) = merge_pair(&mut level, src, dst, lo, mid, hi, o, Ghost(c), Ghost(r as int), Ghost(w as int), Ghost(at));
        proof {
            at = next;
            lemma_halved(b@, c, w as int);
        }
        b.set(w, b[k]);
        w += 1;
        k += 2;
    }
    finish_level(level, src, dst, b, r, w, o, Ghost(c), Ghost(at))
}

/// Copies a run without a partner, merges the pair that waits, and writes the last
/// boundaries of the next level.
#[verifier::rlimit(60)]
fn finish_level<T: Copy, O: Less<T>>(
    level: Level,
    src: &[T],
    dst: &mut [T],
    b: &mut Vec<u32>,
    r: usize,
    pairs: usize,
    o: &O,
    Ghost(c): Ghost<Seq<u32>>,
    Ghost(at): Ghost<int>,
) -> (w: usize)
    requires
        r > 1,
        src@.len() == old(dst)@.len() <= 0xFFFF_FFFF,
        level_runs(o, src@, c, r as int),
        all_accepted(o, src@),
        pairs == r / 2,
        r < c.len() == old(b)@.len(),
        halved(old(b)@, c, pairs as int),
        forall|p: int| pairs <= p < c.len() ==> #[trigger] old(b)@[p] == c[p],
        settled(o, src@, old(dst)@, c, pairs as int, level.pending, at),
    ensures
        w == (r + 1) / 2,
        final(dst)@.len() == src@.len(),
        level_runs(o, final(dst)@, final(b)@, w as int),
        reordered(o, src@, final(dst)@),
{
    let n: usize = src.len();
    let ghost s = src@;
    let mut w: usize = pairs;
    let ghost before = dst@;
    if r % 2 == 1 {
        let last: usize = b[r - 1] as usize;
        proof {
            reveal(level_runs);
            lemma_boundaries(o, s, c, r as int, r - 1, r as int);
        }
        copy_forward(src, last, dst, last, n - last);
        proof {
            lemma_last_run(o, s, before, dst@, c, r as int, w as int, level.pending, at);
            lemma_halved(b@, c, w as int);
        }
        b.set(w, last as u32);
        w += 1;
    }
    let ghost between = dst@;
    let ghost waiting = level.pending;
    assert(waits(o, s, waiting)) by {
        reveal(settled);
    }
    level.finish(src, dst, o);
    let ghost b1 = b@;
    b.set(w, n as u32);
    proof {
        reveal(level_runs);
        assert forall|i: int| 0 <= i < w implies #[trigger] b@[i] == c[2 * i] by {
            reveal(halved);
            assert(b1[i] == c[2 * i]);
        }
        lemma_level_end(o, s, between, dst@, c, r as int, b@, w as int, pairs as int, waiting, at);
    }
    w
}

/// The last pair found no partner; the boundaries `e` of the next level.
proof fn lemma_level_end<T, O: Less<T>>(o: &O, s: Seq<T>, d: Seq<T>, d2: Seq<T>, c: Seq<u32>, r: int, e: Seq<u32>, w: int, pairs: int, waiting: Option<Merge>, at: int)
    requires
        runs_in(o, s, c, r),
        r > 1,
        s.len() == d.len() == d2.len(),
        s.len() <= 0xFFFF_FFFF,
        pairs == r / 2,
        w == (r + 1) / 2,
        w < e.len(),
        e[w] == s.len(),
        forall|i: int| 0 <= i < w ==> #[trigger] e[i] == c[2 * i],
        settled(o, s, d, c, pairs, waiting, at),
        pairs < w ==> piece_sorted(o, s, d, c[r - 1] as int, s.len() as int),
        match waiting {
            Some(m) => piece_sorted(o, s, d2, m.l as int, m.rend as int) && same_outside(d, d2, m.l as int, m.rend as int),
            None => d2 == d,
        },
    ensures
        runs_in(o, d2, e, w),
        reordered(o, s, d2),
{
    reveal(settled);
    assert forall|i: int| 0 <= i < w implies piece_sorted(o, s, d2, #[trigger] e[i] as int, e[i + 1] as int) by {
        if waiting is Some {
            lemma_boundaries(o, s, c, r, 2 * at, 2 * at + 1);
            lemma_boundaries(o, s, c, r, 2 * at + 1, 2 * at + 2);
        }
        if i < pairs {
            assert(e[i + 1] == c[2 * i + 2]) by {
                if i + 1 < w {
                    assert(e[i + 1] == c[2 * (i + 1)]);
                }
            }
            if waiting is Some && i == at {
            } else {
                assert(piece_sorted(o, s, d, c[2 * i] as int, c[2 * i + 2] as int));
                if waiting is Some {
                    if i < at {
                        lemma_boundaries(o, s, c, r, 2 * i + 2, 2 * at);
                    } else {
                        lemma_boundaries(o, s, c, r, 2 * at + 2, 2 * i);
                    }
                    lemma_settled_frame(o, s, d, d2, c, r, i, c[2 * at] as int, c[2 * at + 2] as int);
                }
            }
        } else {
            assert(2 * i == r - 1);
            lemma_boundaries(o, s, c, r, r - 1, r);
            if waiting is Some {
                lemma_boundaries(o, s, c, r, 2 * at + 2, r - 1);
                lemma_piece_frame(o, s, d, d2, c[r - 1] as int, s.len() as int);
            }
        }
    }
    assert forall|i: int, j: int| 0 <= i < j <= w implies #[trigger] e[i] < #[trigger] e[j] by {
        assert(e[i] == c[2 * i]);
        if j < w {
            lemma_boundaries(o, s, c, r, 2 * i, 2 * j);
        } else {
            lemma_boundaries(o, s, c, r, 2 * i, r);
        }
    }
    assert(e[0] == c[0]);
    lemma_pieces(o, s, d2, e, w, w);
    assert(s.take(s.len() as int) =~= s);
    assert(d2.take(s.len() as int) =~= d2);
    assert forall|i: int| 0 <= i < w implies in_order(o, d2.subrange(#[trigger] e[i] as int, e[i + 1] as int)) by {
        assert(piece_sorted(o, s, d2, e[i] as int, e[i + 1] as int));
    }
}

/// Merges the runs that the boundaries cut `a` into, bottom-up through `buf`;
/// the result is in `a`.
fn merge_runs<T: Copy, O: Less<T>>(a: &mut [T], buf: &mut [T], b: &mut Vec<u32>, r: usize, o: &O)
    requires
        old(a)@.len() == old(buf)@.len() <= 0xFFFF_FFFF,
        runs_in(o, old(a)@, old(b)@, r as int),
        all_accepted(o, old(a)@),
    ensures
        sorted_by(o, old(a)@, final(a)@),
{
    let ghost s = a@;
    let n: usize = a.len();
    let mut r: usize = r;
    let mut away = false;
    proof {
        assert(s.subrange(0, n as int) =~= s);
    }
    while r > 1
        invariant
            n == s.len() == a@.len() == buf@.len() <= 0xFFFF_FFFF,
            !away ==> runs_in(o, a@, b@, r as int) && reordered(o, s, a@),
            away ==> runs_in(o, buf@, b@, r as int) && reordered(o, s, buf@),
            all_accepted(o, s),
        decreases r,
    {
        let ghost before = if away {
            buf@
        } else {
            a@
        };
        proof {
            lemma_accepted_permutation(o, s, before);
        }
        if away {
            r = merge_level(&*buf, a, b, r, o);
        } else {
            r = merge_level(&*a, buf, b, r, o);
        }
        away = !away;
        proof {
            let after = if away {
                buf@
            } else {
                a@
            };
            assert forall|le: spec_fn(T, T) -> bool| #[trigger] o.follows(le) implies stable(le, s, after) by {
                lemma_stable_trans(le, s, before, after);
            }
        }
    }
    proof {
        let end = if away {
            buf@
        } else {
            a@
        };
        assert(b@[0] == 0 && b@[1] == n);
        assert(end.subrange(0, n as int) =~= end);
        assert(in_order(o, end));
    }
    if away {
        copy_forward(&*buf, 0, a, 0, n);
        assert(a@ =~= buf@);
    }
}

/// How many boundaries are kept for `n` elements, minus the closing one.
pub fn max_runs(n: usize) -> (r: usize)
    ensures
        r == n / 32 + 33,
{
    n / 32 + 33
}

/// The first position from `j` on where the direction changes.
pub open spec fn same_to<T>(le: spec_fn(T, T) -> bool, s: Seq<T>, j: int, down: bool) -> int
    decreases s.len() - j,
{
    if j < s.len() && descent(le, s, j) == down {
        same_to(le, s, j + 1, down)
    } else {
        j
    }
}

/// Where the maximal run from `i` on ends: one that never descends, or one that
/// descends at every step.
pub open spec fn run_end<T>(le: spec_fn(T, T) -> bool, s: Seq<T>, i: int) -> int {
    same_to(le, s, i + 1, i + 1 < s.len() && descent(le, s, i + 1))
}

/// The runs from `i` on, the first of them run number `r`, are long enough to be
/// worth merging: at the end of each, at `j`, there were at most `j / 32 + 32`.
pub open spec fn runs_pay<T>(le: spec_fn(T, T) -> bool, s: Seq<T>, i: int, r: int) -> bool
    decreases s.len() - i,
{
    if i >= s.len() {
        true
    } else {
        proof {
            lemma_same_to(le, s, i + 1, i + 1 < s.len() && descent(le, s, i + 1));
        }
        r + 1 <= run_end(le, s, i) / 32 + 32 && runs_pay(le, s, run_end(le, s, i), r + 1)
    }
}

pub proof fn lemma_same_to<T>(le: spec_fn(T, T) -> bool, s: Seq<T>, j: int, down: bool)
    ensures
        same_to(le, s, j, down) >= j,
        j <= s.len() ==> same_to(le, s, j, down) <= s.len(),
    decreases s.len() - j,
{
    if j < s.len() && descent(le, s, j) == down {
        lemma_same_to(le, s, j + 1, down);
    }
}

/// A sequence that descends at every step is turned by its stable sort.
proof fn lemma_reverse_strict<T>(le: spec_fn(T, T) -> bool, x: Seq<T>)
    requires
        total_preorder(le),
        forall|i: int| 1 <= i < x.len() ==> #[trigger] descent(le, x, i),
    ensures
        stable_sort_of(le, x, x.reverse()),
    decreases x.len(),
{
    if x.len() == 0 {
        assert(x.reverse() =~= x);
    } else {
        let t = x.drop_last();
        let v = x.last();
        let one = seq![v];
        assert forall|i: int| 1 <= i < t.len() implies #[trigger] descent(le, t, i) by {
            assert(descent(le, x, i));
        }
        lemma_reverse_strict(le, t);
        assert forall|i: int| 0 <= i < t.len() implies !le(#[trigger] t[i], v) by {
            lemma_strict_below(le, x, i, x.len() - 1);
        }
        lemma_stable_swap(le, t, one);
        lemma_stable_add(le, one, t, one, t.reverse());
        assert(x =~= t + one);
        assert(x.reverse() =~= one + t.reverse());
        lemma_stable_trans(le, x, one + t, x.reverse());
        lemma_stable_permutation(le, x, x.reverse());
        assert(le(v, v));
        assert forall|i: int, j: int| 0 <= i < one.len() && 0 <= j < t.reverse().len() implies le(#[trigger] one[i], #[trigger] t.reverse()[j]) by {
            assert(t.reverse()[j] == t[t.len() - 1 - j]);
            assert(!le(t[t.len() - 1 - j], v));
        }
        lemma_sorted_add(le, one, t.reverse());
    }
}

proof fn lemma_strict_below<T>(le: spec_fn(T, T) -> bool, x: Seq<T>, i: int, j: int)
    requires
        total_preorder(le),
        forall|k: int| 1 <= k < x.len() ==> #[trigger] descent(le, x, k),
        0 <= i < j < x.len(),
    ensures
        !le(x[i], x[j]),
    decreases j - i,
{
    assert(descent(le, x, j));
    if i < j - 1 {
        lemma_strict_below(le, x, i, j - 1);
        if le(x[i], x[j]) {
            assert(le(x[j], x[j - 1]));
        }
    }
}

/// A stretch without descents is in order.
pub proof fn lemma_no_drop<T>(le: spec_fn(T, T) -> bool, x: Seq<T>)
    requires
        total_preorder(le),
        forall|i: int| 1 <= i < x.len() ==> !#[trigger] descent(le, x, i),
    ensures
        sorted(le, x),
    decreases x.len(),
{
    if x.len() > 0 {
        let t = x.drop_last();
        let v = x.last();
        assert forall|i: int| 1 <= i < t.len() implies !#[trigger] descent(le, t, i) by {
            assert(!descent(le, x, i));
        }
        lemma_no_drop(le, t);
        let one = seq![v];
        assert(le(v, v));
        if t.len() > 0 {
            assert(!descent(le, x, x.len() - 1));
        }
        assert forall|i: int, j: int| 0 <= i < t.len() && 0 <= j < one.len() implies le(#[trigger] t[i], #[trigger] one[j]) by {
            assert(le(t[i], t[t.len() - 1]));
        }
        lemma_sorted_add(le, t, one);
        assert(x =~= t + one);
    }
}

/// A rearranged front makes up a rearranged whole.
proof fn lemma_reordered_front<T, O: Less<T>>(o: &O, s: Seq<T>, a: Seq<T>, j: int)
    requires
        0 <= j <= s.len() == a.len(),
        reordered(o, s.take(j), a.take(j)),
        forall|k: int| j <= k < s.len() ==> a[k] == s[k],
    ensures
        reordered(o, s, a),
{
    let rest = s.skip(j);
    assert(a.skip(j) =~= rest);
    assert(s =~= s.take(j) + rest);
    assert(a =~= a.take(j) + rest);
    lemma_permutation_add(s.take(j), rest, a.take(j), rest);
    assert forall|le: spec_fn(T, T) -> bool| #[trigger] o.follows(le) implies stable(le, s, a) by {
        lemma_stable_add(le, s.take(j), rest, a.take(j), rest);
    }
}

/// The boundaries of the maximal non-descending runs of `a` into `b`; a strictly
/// descending run is reversed in place, which keeps equal elements in their
/// order. Gives up, with false, once the runs seen are too short to be worth
/// merging, which on unordered input happens within the first few hundred
/// elements; the boundaries never outgrow their room.
#[verifier::rlimit(60)]
fn find_runs<T: Copy, O: Less<T>>(a: &mut [T], b: &mut Vec<u32>, o: &O) -> (r: bool)
    requires
        0 < old(a)@.len() <= 0xFFFF_FFFF,
        old(b)@.len() == 0,
        all_accepted(o, old(a)@),
    ensures
        reordered(o, old(a)@, final(a)@),
        final(b)@.len() <= old(a)@.len() / 32 + 34,
        r ==> runs_in(o, final(a)@, final(b)@, final(b)@.len() - 1),
        forall|le: spec_fn(T, T) -> bool| #[trigger] o.follows(le) ==> r == runs_pay(le, old(a)@, 0, 0),
{
    let n: usize = a.len();
    let ghost s = a@;
    b.push(0);
    let mut i: usize = 0;
    proof {
        assert(s.take(0) =~= a@.take(0));
    }
    while i < n
        invariant
            i <= n == s.len() == a@.len(),
            s == old(a)@,
            n <= 0xFFFF_FFFF,
            all_accepted(o, s),
            reordered(o, s.take(i as int), a@.take(i as int)),
            forall|k: int| i <= k < n ==> a@[k] == s[k],
            b@.len() >= 1,
            b@[0] == 0,
            b@[b@.len() - 1] == i,
            b@.len() - 1 <= i / 32 + 32,
            forall|p: int, q: int| 0 <= p < q < b@.len() ==> #[trigger] b@[p] < #[trigger] b@[q],
            forall|p: int| 0 <= p < b@.len() - 1 ==> in_order(o, a@.subrange(#[trigger] b@[p] as int, b@[p + 1] as int)),
            forall|le: spec_fn(T, T) -> bool| #[trigger] o.follows(le) ==> runs_pay(le, s, 0, 0) == runs_pay(le, s, i as int, b@.len() - 1),
        decreases n - i,
    {
        let mut j: usize = i + 1;
        let ghost before = a@;
        proof {
            assert forall|k: int| i <= k < n implies o.accepts(#[trigger] a@[k]) by {
                assert(o.accepts(s[k]));
            }
        }
        let down = j < n && o.less(a[j], a[j - 1]);
        let mut same = true;
        while same && j < n
            invariant
                i < j <= n == s.len() == a@.len(),
                a@ == before,
                forall|k: int| i <= k < n ==> o.accepts(#[trigger] a@[k]),
                forall|k: int| i <= k < n ==> before[k] == s[k],
                forall|le: spec_fn(T, T) -> bool| #[trigger] o.follows(le) ==> down == (i + 1 < n && descent(le, s, i + 1)),
                forall|le: spec_fn(T, T) -> bool| #[trigger] o.follows(le) ==> run_end(le, s, i as int) == same_to(le, s, j as int, down),
                forall|le: spec_fn(T, T) -> bool, k: int| #![trigger o.follows(le), descent(le, s, k)] o.follows(le) && i < k < j ==> descent(le, s, k) == down,
                !same ==> j < n && forall|le: spec_fn(T, T) -> bool| #[trigger] o.follows(le) ==> descent(le, s, j as int) != down,
            decreases
                n - j + if same {
                    1int
                } else {
                    0
                },
        {
            let ghost j0 = j as int;
            if o.less(a[j], a[j - 1]) == down {
                j += 1;
            } else {
                same = false;
            }
            proof {
                assert forall|le: spec_fn(T, T) -> bool| #[trigger] o.follows(le) implies (descent(le, s, j0) == down) == same by {}
            }
        }
        if down {
            reverse_range(a, i, j);
        }
        proof {
            let x = s.subrange(i as int, j as int);
            let y = a@.subrange(i as int, j as int);
            assert(before.subrange(i as int, j as int) =~= x);
            assert(a@.take(i as int) =~= before.take(i as int));
            assert(y =~= if down {
                x.reverse()
            } else {
                x
            });
            lemma_reverse_permutation(x);
            assert(s.take(j as int) =~= s.take(i as int) + x);
            assert(a@.take(j as int) =~= a@.take(i as int) + y);
            lemma_permutation_add(s.take(i as int), x, a@.take(i as int), y);
            assert forall|le: spec_fn(T, T) -> bool| #[trigger] o.follows(le) implies stable_sort_of(le, x, y) by {
                o.follows_total(le);
                assert forall|k: int| 1 <= k < x.len() implies #[trigger] descent(le, x, k) == down by {
                    assert(descent(le, s, k + i) == down);
                }
                if down {
                    lemma_reverse_strict(le, x);
                } else {
                    lemma_no_drop(le, x);
                }
            }
            assert forall|le: spec_fn(T, T) -> bool| #[trigger] o.follows(le) implies stable(le, s.take(j as int), a@.take(j as int)) by {
                lemma_stable_add(le, s.take(i as int), x, a@.take(i as int), y);
            }
            assert forall|le: spec_fn(T, T) -> bool| #[trigger] o.follows(le) implies run_end(le, s, i as int) == j by {
                assert(descent(le, s, j as int) != down || j == n);
            }
            assert forall|p: int| 0 <= p < b@.len() - 1 implies in_order(o, a@.subrange(#[trigger] b@[p] as int, b@[p + 1] as int)) by {
                assert(b@[p + 1] <= i) by {
                    if p + 1 < b@.len() - 1 {
                        assert(b@[p + 1] < b@[b@.len() - 1]);
                    }
                }
                assert(b@[p] < b@[p + 1]);
                assert(a@.subrange(b@[p] as int, b@[p + 1] as int) =~= before.subrange(b@[p] as int, b@[p + 1] as int));
            }
        }
        let ghost old_b = b@;
        b.push(j as u32);
        proof {
            assert forall|p: int| 0 <= p < b@.len() - 1 implies in_order(o, a@.subrange(#[trigger] b@[p] as int, b@[p + 1] as int)) by {
                if p < old_b.len() - 1 {
                    assert(old_b[p] == b@[p] && old_b[p + 1] == b@[p + 1]);
                }
            }
            assert forall|p: int, q: int| 0 <= p < q < b@.len() implies #[trigger] b@[p] < #[trigger] b@[q] by {
                if q == old_b.len() {
                    if p < q - 1 {
                        assert(old_b[p] < old_b[q - 1]);
                    }
                } else {
                    assert(old_b[p] < old_b[q]);
                }
            }
        }
        i = j;
        if b.len() - 1 > j / 32 + 32 {
            proof {
                lemma_reordered_front(o, s, a@, j as int);
                assert forall|le: spec_fn(T, T) -> bool| #[trigger] o.follows(le) implies !runs_pay(le, s, 0, 0) by {}
                assert(j / 32 <= n / 32);
            }
            return false;
        }
    }
    proof {
        assert(s.take(n as int) =~= s);
        assert(a@.take(n as int) =~= a@);
    }
    true
}

/// Sorts `v` by the comparison if it is made of long natural runs: true, and the
/// slice is sorted, stably. False if the runs are too short, if the slice is
/// short, or if the buffer or the run boundaries cannot be had; then the slice
/// is a permutation of its input with the same stable order (strictly descending
/// runs may have been reversed) for the comparison sort to finish.
pub fn merge_natural_runs<T: Copy, O: Less<T>, M: Alloc>(v: &mut [T], o: &O, mem: &mut M) -> (r: bool)
    requires
        all_accepted(o, old(v)@),
    ensures
        r ==> sorted_by(o, old(v)@, final(v)@),
        reordered(o, old(v)@, final(v)@),
        final(mem).refusals() >= old(mem).refusals(),
        final(mem).held() == old(mem).held(),
        final(mem).refusals() > old(mem).refusals() ==> !r,
        final(mem).refusals() == old(mem).refusals() ==> forall|le: spec_fn(T, T) -> bool|
            #[trigger] o.follows(le) ==> r == (RUNS_MIN <= old(v)@.len() <= 0xFFFF_FFFF && runs_pay(le, old(v)@, 0, 0)),
        old(v)@.len() < RUNS_MIN || old(v)@.len() > 0xFFFF_FFFF ==> !r && final(v)@ == old(v)@,
{
    let n: usize = v.len();
    if n < RUNS_MIN || n > 0xFFFF_FFFF {
        return false;
    }
    let room: usize = max_runs(n) + 1;
    let mut bounds: Vec<u32> = match alloc_array(mem, room) {
        Ok(x) => x,
        Err(_) => {
            return false;
        },
    };
    let ghost s = v@;
    if !find_runs(v, &mut bounds, o) {
        free_array(mem, bounds, room);
        return false;
    }
    let ghost t = v@;
    proof {
        lemma_permutation_len(s, t);
        lemma_accepted_permutation(o, s, t);
    }
    let mut buf: Vec<T> = match alloc_array(mem, n) {
        Ok(x) => x,
        Err(_) => {
            free_array(mem, bounds, room);
            return false;
        },
    };
    let mut i: usize = 0;
    while i < n
        invariant
            i <= n == v@.len(),
            v@ == t,
            buf@.len() == i,
            mem.refusals() == old(mem).refusals(),
        decreases n - i,
    {
        buf.push(v[i]);
        i += 1;
    }
    let r: usize = bounds.len() - 1;
    merge_runs(v, &mut buf, &mut bounds, r, o);
    proof {
        assert forall|le: spec_fn(T, T) -> bool| #[trigger] o.follows(le) implies stable_sort_of(le, s, v@) by {
            lemma_stable_trans(le, s, t, v@);
        }
    }
    free_array(mem, buf, n);
    free_array(mem, bounds, room);
    true
}

} // verus!
