//! The partition sort for two to four distinct keys. Few distinct keys (flags,
//! enum codes, quartiles) are common, and a counting radix is a poor fit for
//! them. A stable partition needs no counters: with the distinct sampled keys in
//! ascending order the range is split at a middle key exactly like the median
//! split, counting each side's lower key on the way; then each side is
//! partitioned at its own key straight into its final place.
use crate::algorithm::{buffer_for, retold_trail, trail, Scratch, Trail};
use crate::algorithm::exec::{chunk_key, chunk_ready, chunk_sorted, raw_within, varying, words_at};
use crate::algorithm::level::lemma_coarse_stable;
use crate::algorithm::plan::SPLIT_MAX_DIGIT;
use crate::algorithm::radix_route::{
    below, forward_split, half_room, half_split, lemma_filter_split, lemma_partition_stable,
    lemma_side_ready, lemma_sides_sorted, not_below, overflow_at, roomy, sides_trail,
    sort_split_parts, split_tally, untouched, Pivot,
};
use crate::bits::{agree_outside, lemma_agree_or, lemma_agree_through};
use crate::cpu::Machine;
use crate::order::{
    by_key, lemma_filter_empty, lemma_filter_filter, lemma_filter_index, lemma_filter_member,
    lemma_filter_take, lemma_permutation_add, lemma_permutation_len, lemma_sorted_add,
    lemma_stable_add, permutation, stable,
};
use crate::radix::copy_all;
use crate::view::{
    after_copies, asks_for, asks_more, copy_forward, keeps_record, lemma_record, note_copies,
    note_key, Alloc, AllocError, Elem, Hooks, Note, RadixKey,
};
use vstd::prelude::*;

verus! {

/// What the first pass of a partition sort found.
#[derive(Clone, Copy, Debug)]
pub struct Split2 {
    /// The buffer was large enough.
    pub fits: bool,
    /// The varying bits of the keys.
    pub mask: u64,
    /// Keys below the first threshold.
    pub c0_lt: usize,
    /// Keys from the middle threshold on and below the third.
    pub c0_ge: usize,
    /// Keys from the middle threshold on.
    pub n_ge: usize,
    /// Every key is one of the four.
    pub known: bool,
}

/// `k` is one of the four keys.
pub open spec fn one_of(v: Seq<u64>, k: u64) -> bool {
    k == v[0] || k == v[1] || k == v[2] || k == v[3]
}

/// First pass: stable split of `a` at `t2` into `a` (compacted) and the front
/// of `buf`, with the exact varying bits, the counts of keys below `t1` (the
/// lower key of the lower side) and of keys in `[t2, t3)` (the lower key of the
/// upper side), and whether every key is one of `v`. On overflow the buffered
/// elements are folded back into their gap.
#[verifier::rlimit(40)]
pub fn split2_scalar<T: Elem, H: Hooks>(a: &mut [T], buf: &mut [T], chunk: u64, v: &[u64; 4], t1: u64, t2: u64, t3: u64, hooks: &mut H) -> (r: Split2)
    requires
        old(a)@.len() > 0,
        chunk_ready(old(a)@, chunk as int),
        t2 <= t3,
    ensures
        keeps_record(*old(hooks), *final(hooks)),
        H::records() ==> final(hooks).tally() == split_tally::<T, H>(old(hooks).tally(), old(a)@, chunk as int, t2, old(buf)@.len() as int, true),
        !r.fits ==> final(a)@ == half_split(old(a)@, chunk as int, t2, old(buf)@.len() as int),
        final(a)@.len() == old(a)@.len(),
        final(buf)@.len() == old(buf)@.len(),
        r.fits <==> old(a)@.filter(not_below(chunk as int, t2)).len() <= old(buf)@.len(),
        r.fits ==> r.n_ge == old(a)@.filter(not_below(chunk as int, t2)).len(),
        r.fits ==> final(a)@.take(old(a)@.len() - r.n_ge) == old(a)@.filter(below(chunk as int, t2)),
        r.fits ==> final(buf)@.take(r.n_ge as int) == old(a)@.filter(not_below(chunk as int, t2)),
        r.fits ==> r.n_ge <= old(a)@.len() && raw_within(old(a)@, chunk as int, r.mask),
        r.fits ==> r.mask == varying(words_at(old(a)@, chunk as int), old(a)@.len() as int),
        r.fits ==> r.c0_lt == old(a)@.filter(below(chunk as int, t1)).len(),
        r.fits ==> r.c0_ge == old(a)@.filter(below(chunk as int, t3)).len() - old(a)@.filter(below(chunk as int, t2)).len(),
        r.fits ==> (r.known <==> forall|i: int| 0 <= i < old(a)@.len() ==> one_of(v@, (#[trigger] old(a)@[i]).chunks()[chunk as int])),
        !r.fits ==> stable(by_key(chunk_key(chunk as int)), old(a)@, final(a)@) && permutation(old(a)@, final(a)@),
{
    let n: usize = a.len();
    let cap: usize = buf.len();
    let ghost o = a@;
    let ghost c = chunk as int;
    let ghost lt = below::<T>(c, t2);
    let ghost ge = not_below::<T>(c, t2);
    let ghost b1 = below::<T>(c, t1);
    let ghost b3 = below::<T>(c, t3);
    let ghost ks = words_at(o, c);
    let k0: u64 = T::radix_key(a[0], chunk).to_u64();
    hooks.on_read(&*a, 0);
    note_key(a[0], chunk, hooks);
    let mut m: u64 = 0;
    let mut w: usize = 0;
    let mut b: usize = 0;
    let mut i: usize = 0;
    let mut c1: usize = 0;
    let mut c3: usize = 0;
    let mut known = true;
    let mut full = false;
    proof {
        assert(o.take(0) =~= Seq::<T>::empty());
        lemma_filter_empty(lt);
        lemma_filter_empty(ge);
        lemma_filter_empty(b1);
        lemma_filter_empty(b3);
        assert(a@.take(0) =~= Seq::<T>::empty());
        assert(buf@.take(0) =~= Seq::<T>::empty());
    }
    while i < n && !full
        invariant
            keeps_record(*old(hooks), *hooks),
            H::records() && !full ==> split_tally::<T, H>(old(hooks).tally(), o, c, t2, cap as int, true) == forward_split::<T, H>(hooks.tally(), o, c, t2, cap as int, i as int, b as int),
            H::records() && full ==> split_tally::<T, H>(old(hooks).tally(), o, c, t2, cap as int, true) == after_copies::<H>(hooks.tally(), b as int),
            overflow_at(o, c, t2, cap as int, 0, 0) == overflow_at(o, c, t2, cap as int, i as int, b as int),
            i <= n == o.len() == a@.len(),
            cap == buf@.len() == old(buf)@.len(),
            w + b == i,
            b <= cap,
            c == chunk,
            chunk_ready(o, c),
            t2 <= t3,
            lt == below::<T>(c, t2),
            ge == not_below::<T>(c, t2),
            b1 == below::<T>(c, t1),
            b3 == below::<T>(c, t3),
            a@.take(w as int) == o.take(i as int).filter(lt),
            buf@.take(b as int) == o.take(i as int).filter(ge),
            c1 == o.take(i as int).filter(b1).len(),
            c3 == o.take(i as int).filter(b3).len(),
            c1 <= i,
            w <= c3 <= i,
            known <==> forall|k: int| 0 <= k < i ==> one_of(v@, (#[trigger] o[k]).chunks()[c]),
            forall|k: int| i <= k < n ==> a@[k] == o[k],
            forall|k: int| 0 <= k < i ==> agree_outside((#[trigger] o[k]).chunks()[c], k0, m),
            ks == words_at(o, c),
            k0 == ks[0],
            m == varying(ks, i as int),
            full ==> i < n && b == cap && ge(o[i as int]),
        decreases
            n - i + (if full {
                0int
            } else {
                1int
            }),
    {
        let e: T = a[i];
        assert(e == o[i as int]);
        let k: u64 = T::radix_key(e, chunk).to_u64();
        hooks.on_read(&*a, i);
        note_key(e, chunk, hooks);
        proof {
            lemma_filter_take(o, i as int, lt);
            lemma_filter_take(o, i as int, ge);
            lemma_filter_take(o, i as int, b1);
            lemma_filter_take(o, i as int, b3);
            lemma_agree_or(k, k0, m, 0);
            assert(ks[i as int] == k);
            assert forall|j: int| 0 <= j < i implies agree_outside((#[trigger] o[j]).chunks()[c], k0, m | (k ^ k0)) by {
                lemma_agree_or(o[j].chunks()[c], k0, m, k ^ k0);
            }
        }
        let ghost a0 = a@;
        let ghost bf0 = buf@;
        if k >= t2 && b == cap {
            full = true;
        } else {
            m = m | (k ^ k0);
            if k != v[0] && k != v[1] && k != v[2] && k != v[3] {
                assert(!one_of(v@, o[i as int].chunks()[c]));
                known = false;
            }
            if k < t1 {
                c1 += 1;
            }
            if k < t3 {
                c3 += 1;
            }
            if k >= t2 {
                buf[b] = e;
                hooks.on_write(&*buf, b);
                b += 1;
                assert(buf@.take(b as int) =~= bf0.take(b - 1).push(e));
            } else {
                a[w] = e;
                hooks.on_write(&*a, w);
                w += 1;
                assert(a@.take(w as int) =~= a0.take(w - 1).push(e));
            }
            i += 1;
        }
    }
    assert(o.take(n as int) =~= o);
    if full {
        copy_forward(buf, 0, a, w, b);
        note_copies(&*buf, 0, &*a, w, b, hooks);
        proof {
            let f = o.take(i as int);
            let r = o.skip(i as int);
            lemma_filter_split(o, i as int, ge);
            lemma_filter_index(r, ge, 0);
            lemma_partition_stable(f, c, t2);
            let le = by_key(chunk_key::<T>(c));
            lemma_stable_add(le, f, r, f.filter(lt) + f.filter(ge), r);
            lemma_permutation_add(f, r, f.filter(lt) + f.filter(ge), r);
            assert(f + r =~= o);
            assert(a@ =~= (f.filter(lt) + f.filter(ge)) + r);
        }
        return Split2 { fits: false, mask: 0, c0_lt: 0, c0_ge: 0, n_ge: 0, known: false };
    }
    proof {
        lemma_partition_stable(o, c, t2);
        assert forall|i: int, j: int| 0 <= i < o.len() && 0 <= j < o.len() implies agree_outside((#[trigger] o[i]).chunks()[c], (#[trigger] o[j]).chunks()[c], m) by {
            lemma_agree_through(o[i].chunks()[c], o[j].chunks()[c], k0, m);
        }
    }
    Split2 { fits: true, mask: m, c0_lt: c1, c0_ge: c3 - w, n_ge: b, known }
}

/// The record of the partition of the elements from `i` on, where `l` of those
/// below and `g` of the others are still to come. While both are open an element
/// is written to either place.
pub open spec fn partition_tally<T: Elem, H: Hooks>(t: H::Tally, s: Seq<T>, c: int, k: u64, i: int, l: int, g: int) -> H::Tally
    decreases s.len() - i,
{
    if i >= s.len() {
        t
    } else {
        let seen = H::after(H::after(H::after(t, Note::Read), Note::Key(s[i].key_load(c) as u64)), Note::Write);
        let next = if l > 0 && g > 0 {
            H::after(seen, Note::Write)
        } else {
            seen
        };
        if s[i].chunks()[c] < k {
            partition_tally::<T, H>(next, s, c, k, i + 1, l - 1, g)
        } else {
            partition_tally::<T, H>(next, s, c, k, i + 1, l, g - 1)
        }
    }
}

/// Second pass: stable partition of `src` at `t` into `dst[o0, o1)` (the keys
/// below, as many as there are) and `dst` from `o1` on.
#[verifier::rlimit(40)]
pub fn partition2_scalar<T: Elem, H: Hooks>(src: &[T], dst: &mut [T], o0: usize, o1: usize, chunk: u64, t: u64, hooks: &mut H)
    requires
        chunk_ready(src@, chunk as int),
        o0 <= o1,
        o0 + src@.len() <= old(dst)@.len(),
        o1 - o0 == src@.filter(below(chunk as int, t)).len(),
    ensures
        keeps_record(*old(hooks), *final(hooks)),
        H::records() ==> final(hooks).tally() == partition_tally::<T, H>(old(hooks).tally(), src@, chunk as int, t, 0, o1 - o0, src@.len() - (o1 - o0)),
        final(dst)@ == old(dst)@.take(o0 as int) + (src@.filter(below(chunk as int, t)) + src@.filter(not_below(chunk as int, t))) + old(dst)@.skip(o0 + src@.len()),
{
    let m: usize = src.len();
    let ghost c = chunk as int;
    let ghost s = src@;
    let ghost d = dst@;
    let dn: usize = dst.len();
    let ghost lt = below::<T>(c, t);
    let ghost ge = not_below::<T>(c, t);
    let ghost l = s.filter(lt);
    let ghost g = s.filter(ge);
    let mut i: usize = 0;
    let mut c0: usize = o0;
    let mut c1: usize = o1;
    proof {
        lemma_partition_stable(s, c, t);
        assert(s.take(0) =~= Seq::<T>::empty());
        lemma_filter_empty(lt);
        lemma_filter_empty(ge);
    }
    while i < m
        invariant
            keeps_record(*old(hooks), *hooks),
            H::records() ==> partition_tally::<T, H>(old(hooks).tally(), s, c, t, 0, l.len() as int, g.len() as int) == partition_tally::<T, H>(hooks.tally(), s, c, t, i as int, o1 - c0, o0 + m - c1),
            i <= m == s.len(),
            s == src@,
            c == chunk,
            chunk_ready(s, c),
            dst@.len() == d.len() == dn,
            o0 + m <= dn,
            lt == below::<T>(c, t),
            ge == not_below::<T>(c, t),
            l == s.filter(lt),
            g == s.filter(ge),
            l.len() + g.len() == m,
            o1 == o0 + l.len(),
            c0 == o0 + s.take(i as int).filter(lt).len(),
            c1 == o1 + s.take(i as int).filter(ge).len(),
            forall|k: int| 0 <= k < s.take(i as int).filter(lt).len() ==> dst@[o0 + k] == #[trigger] s.take(i as int).filter(lt)[k],
            forall|k: int| 0 <= k < s.take(i as int).filter(ge).len() ==> dst@[o1 + k] == #[trigger] s.take(i as int).filter(ge)[k],
            forall|k: int| 0 <= k < o0 || o0 + m <= k < dn ==> dst@[k] == d[k],
        decreases m - i,
    {
        let e: T = src[i];
        hooks.on_read(src, i);
        note_key(e, chunk, hooks);
        let open = c0 < o1 && c1 - o0 < m;
        if open {
            hooks.on_write(&*dst, c0);
            hooks.on_write(&*dst, c1);
        }
        proof {
            lemma_filter_take(s, i as int, lt);
            lemma_filter_take(s, i as int, ge);
            lemma_filter_split(s, i + 1, lt);
            lemma_filter_split(s, i + 1, ge);
        }
        let ghost lp = s.take(i as int).filter(lt);
        let ghost gp = s.take(i as int).filter(ge);
        let ghost d0 = dst@;
        let k: u64 = T::radix_key(e, chunk).to_u64();
        if k < t {
            dst[c0] = e;
            if !open {
                hooks.on_write(&*dst, c0);
            }
            c0 += 1;
            proof {
                let lq = s.take(i + 1).filter(lt);
                assert forall|k: int| 0 <= k < lq.len() implies dst@[o0 + k] == #[trigger] lq[k] by {
                    if k < lp.len() {
                        assert(d0[o0 + k] == lp[k]);
                    }
                }
                assert forall|k: int| 0 <= k < gp.len() implies dst@[o1 + k] == #[trigger] gp[k] by {
                    assert(d0[o1 + k] == gp[k]);
                }
            }
        } else {
            dst[c1] = e;
            if !open {
                hooks.on_write(&*dst, c1);
            }
            c1 += 1;
            proof {
                let gq = s.take(i + 1).filter(ge);
                assert forall|k: int| 0 <= k < gq.len() implies dst@[o1 + k] == #[trigger] gq[k] by {
                    if k < gp.len() {
                        assert(d0[o1 + k] == gp[k]);
                    }
                }
                assert forall|k: int| 0 <= k < lp.len() implies dst@[o0 + k] == #[trigger] lp[k] by {
                    assert(d0[o0 + k] == lp[k]);
                }
            }
        }
        i += 1;
    }
    proof {
        assert(s.take(m as int) =~= s);
        assert forall|k: int| 0 <= k < l.len() implies dst@[o0 + k] == #[trigger] l[k] by {}
        assert forall|k: int| 0 <= k < g.len() implies dst@[o1 + k] == #[trigger] g[k] by {}
        let want = d.take(o0 as int) + (l + g) + d.skip(o0 + m);
        assert forall|k: int| 0 <= k < dn implies dst@[k] == want[k] by {
            if o0 <= k < o0 + l.len() {
                assert(dst@[o0 + (k - o0)] == l[k - o0]);
            } else if o1 <= k < o0 + m {
                assert(dst@[o1 + (k - o1)] == g[k - o1]);
            }
        }
        assert(dst@ =~= want);
    }
}

/// A side with one key is sorted.
proof fn lemma_one_key<T: Elem>(s: Seq<T>, c: int, k: u64)
    requires
        forall|i: int| 0 <= i < s.len() ==> (#[trigger] s[i]).chunks()[c] == k,
    ensures
        chunk_sorted(c, s, s),
{
}

/// A side with two keys is sorted by one partition.
proof fn lemma_two_keys<T: Elem>(s: Seq<T>, c: int, k: u64, t: u64)
    requires
        k < t,
        forall|i: int| 0 <= i < s.len() ==> (#[trigger] s[i]).chunks()[c] == k || s[i].chunks()[c] == t,
    ensures
        chunk_sorted(c, s, s.filter(below(c, t)) + s.filter(not_below(c, t))),
{
    let l = s.filter(below::<T>(c, t));
    let g = s.filter(not_below::<T>(c, t));
    lemma_partition_stable(s, c, t);
    lemma_coarse_stable(chunk_key::<T>(c), s, l + g);
    assert forall|i: int| 0 <= i < l.len() implies (#[trigger] l[i]).chunks()[c] == k by {
        let j = lemma_filter_member(s, below(c, t), i);
    }
    assert forall|i: int| 0 <= i < g.len() implies (#[trigger] g[i]).chunks()[c] == t by {
        let j = lemma_filter_member(s, not_below(c, t), i);
    }
    lemma_sorted_add(by_key(chunk_key::<T>(c)), l, g);
}

/// The sampled keys that a partition sort goes by: two to four, ascending.
pub open spec fn few_keys(info: Pivot) -> bool {
    &&& 2 <= info.n_distinct <= 4
    &&& forall|i: int, j: int| 0 <= i < j < info.n_distinct ==> #[trigger] info.few[i] < #[trigger] info.few[j]
}

/// The first of the sampled keys above the split: the lower side of two or three
/// keys is then one key and needs no second pass.
pub open spec fn first_above(info: Pivot) -> int {
    if info.n_distinct == 4 {
        2
    } else {
        1
    }
}

/// The elements above the split fit the buffer: half of them and a little more.
pub open spec fn upper_fits<T: Elem>(s: Seq<T>, c: int, info: Pivot) -> bool {
    s.filter(not_below(c, info.few[first_above(info)])).len() <= s.len() / 2 + s.len() / 32 + 8
}

/// Counting the lower key of a side within the side or within the whole is the
/// same.
proof fn lemma_lower_count<T: Elem>(s: Seq<T>, c: int, t1: u64, t2: u64, t3: u64)
    requires
        t1 <= t2 <= t3,
    ensures
        s.filter(below(c, t2)).filter(below(c, t1)) == s.filter(below(c, t1)),
        s.filter(not_below(c, t2)).filter(below(c, t3)).len() == s.filter(below(c, t3)).len() - s.filter(below(c, t2)).len(),
{
    let (b1, b2, b3) = (below::<T>(c, t1), below::<T>(c, t2), below::<T>(c, t3));
    let g2 = not_below::<T>(c, t2);
    assert forall|x: T| #[trigger] b1(x) == (b2(x) && b1(x)) by {}
    lemma_filter_filter(s, b2, b1, b1);
    let mid = |x: T| g2(x) && b3(x);
    lemma_filter_filter(s, g2, b3, mid);
    assert forall|x: T| #[trigger] mid(x) == (b3(x) && g2(x)) by {}
    lemma_filter_filter(s, b3, g2, mid);
    assert forall|x: T| #[trigger] b2(x) == (b3(x) && b2(x)) by {}
    lemma_filter_filter(s, b3, b2, b2);
    lemma_partition_stable(s.filter(b3), c, t2);
}

/// The sampled key number `j`, or the last one.
pub open spec fn few_key(info: Pivot, j: int) -> u64 {
    info.few[if j < info.n_distinct {
        j
    } else {
        info.n_distinct - 1
    }]
}

/// Every key is one of those sampled.
pub open spec fn all_known<T: Elem>(s: Seq<T>, c: int, info: Pivot) -> bool {
    let v = Seq::new(4, |j: int| few_key(info, j));
    forall|i: int| 0 <= i < s.len() ==> one_of(v, (#[trigger] s[i]).chunks()[c])
}

/// Where the partition sort leads.
#[verifier::opaque]
pub open spec fn few_trail<T: Elem, H: Hooks>(t: Trail<H::Tally>, a: Seq<T>, chunk: u64, info: Pivot, have_range: bool, digit_bits: u32, machine: Machine) -> Trail<H::Tally> {
    let c = chunk as int;
    let mid = first_above(info);
    let t2 = info.few[mid];
    let room = buffer_for::<T, H::Tally>(t, half_room(a.len()));
    let parted = retold_trail(room, split_tally::<T, H>(room.track.tally, a, c, t2, half_room(a.len()) as int, true));
    if !upper_fits(a, c, info) {
        parted
    } else if !all_known(a, c, info) {
        sides_trail::<T, H>(parted, a, chunk, t2, true, varying(words_at(a, c), a.len() as int), info, have_range, info.smin, info.smax, digit_bits, machine)
    } else {
        let (l, g) = (a.filter(below(c, t2)), a.filter(not_below(c, t2)));
        let upper = if mid + 1 < info.n_distinct {
            let t3 = info.few[mid + 1];
            let k = g.filter(below(c, t3)).len() as int;
            partition_tally::<T, H>(parted.track.tally, g, c, t3, 0, k, g.len() - k)
        } else {
            after_copies::<H>(parted.track.tally, g.len() as int)
        };
        let half = retold_trail(parted, upper);
        if mid == 2 {
            let more = buffer_for::<T, H::Tally>(half, l.len());
            let k = l.filter(below(c, info.few[1])).len() as int;
            let lower = partition_tally::<T, H>(more.track.tally, l, c, info.few[1], 0, k, l.len() - k);
            retold_trail(more, after_copies::<H>(lower, l.len() as int))
        } else {
            half
        }
    }
}

/// The partition sort for two to four distinct sampled keys. Returns true when
/// the range is sorted. Returns false only if the first pass overflowed the
/// buffer (a skewed key distribution); the array is then a stable partial
/// partition and nothing else has changed, so the caller carries on. An unsampled key does not return false: the two sides are
/// finished on the general radix path here.
#[verifier::rlimit(40)]
pub fn partition_sort_few<T: Elem, M: Alloc, H: Hooks>(a: &mut [T], scratch: &mut Scratch<T, M, H>, chunk: u64, info: &Pivot, have_range: bool, digit_bits: u32) -> (r: Result<bool, AllocError>)
    requires
        old(scratch).base() >= 0,
        0 < old(a)@.len() <= 0xFFFF_FFFF,
        chunk_ready(old(a)@, chunk as int),
        few_keys(*info),
        digit_bits == 0 || 8 <= digit_bits < 32,
    ensures
        keeps_record(old(scratch).tools.hooks, final(scratch).tools.hooks),
        asks_more(old(scratch).tools.mem.asked(), final(scratch).tools.mem.asked()),
        old(scratch).buf@.len() < half_room(old(a)@.len()) ==> asks_more(asks_for::<T>(old(scratch).tools.mem.asked(), half_room(old(a)@.len())), final(scratch).tools.mem.asked()),
        r is Ok ==> trail(*final(scratch)) == few_trail::<T, H>(trail(*old(scratch)), old(a)@, chunk, *info, have_range, digit_bits, old(scratch).tools.machine),
        r == Ok::<bool, AllocError>(false) ==> final(a)@ == half_split(old(a)@, chunk as int, info.few[first_above(*info)], half_room(old(a)@.len()) as int),
        r is Ok ==> final(scratch).refusals() == old(scratch).refusals(),
        r == Ok::<bool, AllocError>(true) ==> chunk_sorted(chunk as int, old(a)@, final(a)@),
        r == Ok::<bool, AllocError>(false) ==> stable(by_key(chunk_key(chunk as int)), old(a)@, final(a)@) && permutation(old(a)@, final(a)@),
        r matches Ok(done) ==> (done <==> upper_fits(old(a)@, chunk as int, *info)),
        r is Err ==> final(scratch).refusals() > old(scratch).refusals(),
        roomy(*old(scratch), old(a)@.len(), SPLIT_MAX_DIGIT, digit_bits) ==> r is Ok && untouched(*old(scratch), *final(scratch)),
        final(scratch).refusals() >= old(scratch).refusals(),
        final(scratch).base() == old(scratch).base(),
        final(a)@.len() == old(a)@.len(),
        final(scratch).tools.machine == old(scratch).tools.machine,
{
    let n: usize = a.len();
    let ghost o = a@;
    let ghost c = chunk as int;
    let d: usize = info.n_distinct;
    let mut vk: [u64; 4] = [0u64; 4];
    let mut j: usize = 0;
    while j < 4
        invariant
            keeps_record(old(scratch).tools.hooks, scratch.tools.hooks),
            j <= 4,
            2 <= d <= 4,
            d == info.n_distinct,
            forall|q: int| 0 <= q < j ==> #[trigger] vk[q] == info.few[if q < d {
                q
            } else {
                d - 1
            }],
        decreases 4 - j,
    {
        let at: usize = if j < d {
            j
        } else {
            d - 1
        };
        vk[j] = info.few[at];
        j += 1;
    }
    let mid: usize = if d == 4 {
        2
    } else {
        1
    };
    let t2: u64 = vk[mid];
    let t1: u64 = if mid == 2 {
        vk[1]
    } else {
        vk[0]
    };
    let t3: u64 = if mid + 1 < d {
        vk[mid + 1]
    } else {
        vk[d - 1]
    };
    let cap: usize = n / 2 + n / 32 + 8;
    let like: T = a[0];
    match scratch.ensure(like, cap) {
        Ok(_) => {},
        Err(e) => {
            return Err(e);
        },
    }
    let ghost room = trail(*scratch);
    let ghost want = few_trail::<T, H>(trail(*old(scratch)), o, chunk, *info, have_range, digit_bits, scratch.tools.machine);
    proof {
        reveal(few_trail);
        assert(vk@ =~= Seq::new(4, |j: int| few_key(*info, j)));
        assert(t2 == info.few[first_above(*info)]);
    }
    let s: Split2;
    {
        let (buf, rest) = scratch.buf.split_at_mut(cap);
        s = split2_scalar(a, buf, chunk, &vk, t1, t2, t3, &mut scratch.tools.hooks);
    }
    let ghost parted = retold_trail(room, split_tally::<T, H>(room.track.tally, o, c, t2, cap as int, true));
    proof {
        lemma_record::<H>(scratch.tools.hooks.tally(), parted.track.tally);
        assert(trail(*scratch) == parted);
    }
    if !s.fits {
        return Ok(false);
    }
    assert(s.known == all_known(o, c, *info));
    let n_ge: usize = s.n_ge;
    let n_lt: usize = n - n_ge;
    let ghost lf = o.filter(below::<T>(c, t2));
    let ghost gf = o.filter(not_below::<T>(c, t2));
    proof {
        lemma_partition_stable(o, c, t2);
        lemma_side_ready(o, c, below(c, t2), s.mask);
        lemma_side_ready(o, c, not_below(c, t2), s.mask);
        assert(scratch.buf@.take(n_ge as int) =~= gf);
    }
    if !s.known {
        return match sort_split_parts(a, cap, n_ge, true, chunk, scratch, s.mask, info, have_range, info.smin, t2, info.smax, digit_bits, Ghost(o)) {
            Ok(_) => Ok(true),
            Err(e) => Err(e),
        };
    }
    let ghost gs: Seq<T>;
    proof {
        lemma_lower_count(o, c, t1, t2, t3);
        assert forall|i: int| 0 <= i < gf.len() implies (#[trigger] gf[i]).chunks()[c] == t2 || gf[i].chunks()[c] == t3 by {
            let k = lemma_filter_member(o, not_below(c, t2), i);
            assert(one_of(vk@, o[k].chunks()[c]));
        }
        assert forall|i: int| 0 <= i < lf.len() implies (#[trigger] lf[i]).chunks()[c] == vk[0] || (mid == 2 && lf[i].chunks()[c] == t1) by {
            let k = lemma_filter_member(o, below(c, t2), i);
            assert(one_of(vk@, o[k].chunks()[c]));
        }
    }
    let ghost before = a@;
    if mid + 1 < d {
        let (src, rest) = scratch.buf.split_at_mut(n_ge);
        assert(src@ =~= gf);
        partition2_scalar(src, a, n_lt, n_lt + s.c0_ge, chunk, t3, &mut scratch.tools.hooks);
        proof {
            lemma_two_keys(gf, c, t2, t3);
            gs = gf.filter(below(c, t3)) + gf.filter(not_below(c, t3));
        }
    } else {
        copy_forward(&scratch.buf, 0, a, n_lt, n_ge);
        note_copies(&scratch.buf, 0, &*a, n_lt, n_ge, &mut scratch.tools.hooks);
        proof {
            lemma_one_key(gf, c, t2);
            gs = gf;
            assert(scratch.buf@.subrange(0, n_ge as int) =~= gf);
        }
    }
    proof {
        let upper = if mid + 1 < d {
            partition_tally::<T, H>(parted.track.tally, gf, c, t3, 0, s.c0_ge as int, gf.len() - s.c0_ge)
        } else {
            after_copies::<H>(parted.track.tally, gf.len() as int)
        };
        lemma_record::<H>(scratch.tools.hooks.tally(), upper);
        assert(trail(*scratch) == retold_trail(parted, upper));
    }
    let ghost half = trail(*scratch);
    proof {
        lemma_permutation_len(gf, gs);
        assert(a@ =~= lf + gs) by {
            assert(before.take(n_lt as int) =~= lf);
        }
    }
    if mid == 2 {
        match scratch.ensure(like, n_lt) {
            Ok(_) => {},
            Err(e) => {
                return Err(e);
            },
        }
        let ghost more = trail(*scratch);
        let ghost ls = lf.filter(below(c, t1)) + lf.filter(not_below(c, t1));
        let (al, ar) = a.split_at_mut(n_lt);
        assert(al@ =~= lf);
        assert(ar@ =~= gs);
        let (tmp, rest) = scratch.buf.split_at_mut(n_lt);
        let ghost t0 = tmp@;
        partition2_scalar(al, tmp, 0, s.c0_lt, chunk, t1, &mut scratch.tools.hooks);
        proof {
            lemma_two_keys(lf, c, vk[0], t1);
            lemma_permutation_len(lf, ls);
            assert(tmp@ =~= ls);
        }
        copy_all(tmp, al);
        note_copies(&*tmp, 0, &*al, 0, n_lt, &mut scratch.tools.hooks);
        proof {
            let lower = partition_tally::<T, H>(more.track.tally, lf, c, t1, 0, s.c0_lt as int, lf.len() - s.c0_lt);
            lemma_record::<H>(scratch.tools.hooks.tally(), after_copies::<H>(lower, n_lt as int));
            lemma_sides_sorted(o, c, t2, ls, gs);
        }
    } else {
        proof {
            lemma_one_key(lf, c, vk[0]);
            lemma_sides_sorted(o, c, t2, lf, gs);
        }
    }
    Ok(true)
}

} // verus!
