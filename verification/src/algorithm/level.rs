//! Sorting a part that is larger than the cache: a scatter by the top key bits
//! into buckets, and the passes that sort each bucket.
use crate::algorithm::INSERTION_MAX;
use crate::algorithm::exec::{count_tally, low_mask, some_plan, varying};
use crate::algorithm::plan::{balanced_width, digit_width, SPLIT_MAX_DIGIT};
use crate::bits::{
    agree_outside, digit, lemma_agree_or, lemma_agree_through, lemma_digit, lemma_one_shl,
    lemma_pow2_32, lemma_pow2_fits, lemma_pow2_le, lemma_shr_is_div, lemma_u64_lt_pow2_64,
};
use crate::cpu::CacheSizes;
use crate::gather::{
    bucket, counted, digits_below, gathered, in_bucket, lemma_count_start, lemma_count_step,
    lemma_gathered_bucket, lemma_gathered_prefix, lemma_gathered_sort, lemma_gathered_sorted,
    lemma_start_step, positioned, start,
};
use crate::less::{insertion_tally, Natural};
use crate::order::{
    by_key, class, lemma_by_key_total, lemma_filter_filter, lemma_filter_member,
    lemma_permutation_add, lemma_permutation_len, lemma_permutation_member, lemma_sorted_add,
    lemma_stable_add, lemma_stable_permutation, lemma_stable_trans, lemma_stably, permutation,
    sorted, stable, stable_sort_of, stably, tied_with,
};
use crate::radix::{
    clear_table, copy_all, digit_at, digit_of, image_of, keys_within, lemma_live_alike,
    lemma_low_step, lemma_made_alike, lemma_passes_alike, lemma_within_permutation, listed,
    live_passes, live_to, low_of, made, make_plan, moved_tally, passes_tally, radix_passes,
    readable, scatter_pass, scatter_tally, table_size, whole_of, DigitPlan, KeyFn,
};
use crate::view::{
    agree_below, elem_le, floor_log2, highest_bit, insertion_sort, keeps_record,
    lemma_elem_le_total, lemma_elem_tied, lemma_lex_agree, lex_le_from, log2_of, note_copies,
    note_key, table_note, Elem, Hooks, Note, RadixKey, Stat,
};
use vstd::arithmetic::power2::{lemma_pow2_pos, pow2};
use vstd::prelude::*;

verus! {

/// The elements share the chunks before the one that is read, and the key
/// function keeps the order of that chunk.
pub open spec fn radix_ready<T: Elem, F: KeyFn<T>>(key: F, s: Seq<T>) -> bool {
    &&& readable(key, s)
    &&& forall|i: int, j: int|
        0 <= i < s.len() && 0 <= j < s.len() ==> agree_below((#[trigger] s[i]).chunks(), (#[trigger] s[j]).chunks(), key.at()) && ((image_of(key, s[i]) <= image_of(key, s[j])) == (s[i].chunks()[key.at()]
            <= s[j].chunks()[key.at()]))
}

/// `b` is sorted by the key, and tied elements stand as they stood in `a`.
pub open spec fn part_sorted<T: Elem, F: KeyFn<T>>(key: F, a: Seq<T>, b: Seq<T>) -> bool {
    &&& sorted(by_key(whole_of(key)), b)
    &&& stable(elem_le::<T>(), a, b)
    &&& permutation(a, b)
}

pub proof fn lemma_ready_members<T: Elem, F: KeyFn<T>>(key: F, a: Seq<T>, b: Seq<T>)
    requires
        radix_ready(key, a),
        forall|j: int| 0 <= j < b.len() ==> a.contains(#[trigger] b[j]),
    ensures
        radix_ready(key, b),
{
    assert forall|i: int| 0 <= i < b.len() implies key.at() < (#[trigger] b[i]).chunks().len() by {
        let k = choose|k: int| 0 <= k < a.len() && a[k] == b[i];
        assert(key.at() < a[k].chunks().len());
    }
    assert forall|i: int, j: int| 0 <= i < b.len() && 0 <= j < b.len() implies agree_below((#[trigger] b[i]).chunks(), (#[trigger] b[j]).chunks(), key.at()) && ((image_of(key, b[i]) <= image_of(
        key,
        b[j],
    )) == (b[i].chunks()[key.at()] <= b[j].chunks()[key.at()])) by {
        let k = choose|k: int| 0 <= k < a.len() && a[k] == b[i];
        let l = choose|l: int| 0 <= l < a.len() && a[l] == b[j];
        assert(agree_below(a[k].chunks(), a[l].chunks(), key.at()));
    }
}

pub proof fn lemma_ready_permutation<T: Elem, F: KeyFn<T>>(key: F, a: Seq<T>, b: Seq<T>)
    requires
        radix_ready(key, a),
        permutation(a, b),
    ensures
        radix_ready(key, b),
{
    assert forall|j: int| 0 <= j < b.len() implies a.contains(#[trigger] b[j]) by {
        let i = lemma_permutation_member(b, a, j);
        assert(a[i] == b[j]);
    }
    lemma_ready_members(key, a, b);
}

/// What is stable for an order that depends on the chunks alone is stable for
/// the elements.
pub proof fn lemma_coarse_stable<T: Elem>(f: spec_fn(T) -> int, a: Seq<T>, b: Seq<T>)
    requires
        stable(by_key(f), a, b),
        forall|x: T, y: T| #![trigger f(x), f(y)] x.chunks() == y.chunks() ==> f(x) == f(y),
    ensures
        stable(elem_le::<T>(), a, b),
        permutation(a, b),
{
    let le = elem_le::<T>();
    assert forall|x: T| #![trigger class(le, a, x)] class(le, a, x) == class(le, b, x) by {
        let p = tied_with(by_key(f), x);
        let q = tied_with(le, x);
        assert forall|y: T| #[trigger] q(y) == (p(y) && q(y)) by {
            lemma_elem_tied(x, y);
            assert(x.chunks() == y.chunks() ==> f(x) == f(y));
        }
        lemma_filter_filter(a, p, q, q);
        lemma_filter_filter(b, p, q, q);
        assert(class(by_key(f), a, x) == class(by_key(f), b, x));
    }
    lemma_by_key_total(f);
    lemma_stable_permutation(by_key(f), a, b);
}

/// Words that differ below bit `b` only are ordered by their low `b` bits.
pub proof fn lemma_within_low(x: u64, y: u64, mask: u64, b: nat)
    requires
        agree_outside(x, y, mask),
        b <= 64,
        mask < pow2(b),
    ensures
        (x as nat % pow2(b) <= y as nat % pow2(b)) == (x <= y),
        x as nat / pow2(b) == y as nat / pow2(b),
{
    lemma_pow2_pos(b);
    if b == 64 {
        lemma_u64_lt_pow2_64(x);
        lemma_u64_lt_pow2_64(y);
        vstd::arithmetic::div_mod::lemma_small_mod(x as nat, pow2(b));
        vstd::arithmetic::div_mod::lemma_small_mod(y as nat, pow2(b));
        vstd::arithmetic::div_mod::lemma_basic_div(x as int, pow2(b) as int);
        vstd::arithmetic::div_mod::lemma_basic_div(y as int, pow2(b) as int);
    } else {
        let s = b as u32;
        lemma_shr_is_div(x, s);
        lemma_shr_is_div(y, s);
        lemma_shr_is_div(mask, s);
        vstd::arithmetic::div_mod::lemma_basic_div(mask as int, pow2(b) as int);
        assert(x >> s == y >> s) by (bit_vector)
            requires
                (x ^ y) & !mask == 0,
                mask >> s == 0,
                s < 64,
        ;
        vstd::arithmetic::div_mod::lemma_fundamental_div_mod(x as int, pow2(b) as int);
        vstd::arithmetic::div_mod::lemma_fundamental_div_mod(y as int, pow2(b) as int);
    }
}

/// Sorting by the low bits that vary sorts the part.
pub proof fn lemma_low_sorts<T: Elem, F: KeyFn<T>>(key: F, a: Seq<T>, b: Seq<T>, mask: u64, bits: nat)
    requires
        keys_within(key, a, mask),
        bits <= 64,
        mask < pow2(bits),
        stable_sort_of(by_key(low_of(key, bits)), a, b),
    ensures
        part_sorted(key, a, b),
{
    let f = low_of::<T, F>(key, bits);
    lemma_coarse_stable(f, a, b);
    lemma_within_permutation(key, a, b, mask);
    assert forall|i: int, j: int| 0 <= i <= j < b.len() implies by_key(whole_of::<T, F>(key))(#[trigger] b[i], #[trigger] b[j]) by {
        assert(by_key(f)(b[i], b[j]));
        lemma_within_low(image_of(key, b[i]), image_of(key, b[j]), mask, bits);
    }
}

/// Sorting by whole elements sorts the part.
pub proof fn lemma_elem_sorts<T: Elem, F: KeyFn<T>>(key: F, a: Seq<T>, b: Seq<T>)
    requires
        radix_ready(key, a),
        stable_sort_of(elem_le::<T>(), a, b),
    ensures
        part_sorted(key, a, b),
{
    lemma_ready_permutation(key, a, b);
    assert forall|i: int, j: int| 0 <= i <= j < b.len() implies by_key(whole_of::<T, F>(key))(#[trigger] b[i], #[trigger] b[j]) by {
        let c = key.at();
        assert(elem_le::<T>()(b[i], b[j]));
        assert(agree_below(b[i].chunks(), b[j].chunks(), c));
        lemma_lex_agree(b[i].chunks(), b[j].chunks(), c);
        assert(c < b[i].chunks().len() && c < b[j].chunks().len());
        assert(lex_le_from(b[i].chunks(), b[j].chunks(), c));
    }
}

/// Where no key bit varies, a sequence is sorted as it stands.
pub proof fn lemma_constant_sorts<T: Elem, F: KeyFn<T>>(key: F, a: Seq<T>, mask: u64)
    requires
        keys_within(key, a, mask),
        mask == 0 || a.len() < 2,
    ensures
        part_sorted(key, a, a),
{
    assert forall|i: int, j: int| 0 <= i <= j < a.len() implies by_key(whole_of::<T, F>(key))(#[trigger] a[i], #[trigger] a[j]) by {
        if mask == 0 {
            lemma_pow2_32();
            lemma_within_low(image_of(key, a[i]), image_of(key, a[j]), mask, 0);
        }
    }
}

/// The keys of the elements.
pub open spec fn images<T: Elem, F: KeyFn<T>>(key: F, s: Seq<T>) -> Seq<u64> {
    s.map_values(|x: T| image_of(key, x))
}

/// Counts the digit of `w` bits above `shift` in the first `width` entries of a
/// table. With `measure` the varying bits are measured on the way, against the
/// first key.
#[verifier::rlimit(40)]
pub fn count_digits<T: Elem, F: KeyFn<T>, H: Hooks>(s: &[T], key: F, shift: u32, w: u32, tab: &mut [u32], width: usize, measure: bool, hooks: &mut H) -> (xm: u64)
    requires
        0 < s@.len() <= 0xFFFF_FFFF,
        readable(key, s@),
        shift < 64,
        w < 32,
        pow2(w as nat) <= old(tab)@.len(),
    ensures
        keeps_record(*old(hooks), *final(hooks)),
        H::records() ==> final(hooks).tally() == count_tally::<T, H>(old(hooks).tally(), s@, key.at(), width, measure, s@.len() as int),
        xm == varying(images(key, s@), s@.len() as int),
        counted(s@, digit_of(key, shift as nat, w as nat), pow2(w as nat), s@.len() as int, final(tab)@),
        keys_within(key, s@, xm),
        final(tab)@.len() == old(tab)@.len(),
{
    let n: usize = s.len();
    let ghost dg = digit_of::<T, F>(key, shift as nat, w as nat);
    let ghost nb = pow2(w as nat);
    let size: usize = table_size(w);
    clear_table(tab, size);
    hooks.on_table_sweep(&*tab, width, 4, false, true);
    proof {
        lemma_count_start(s@, dg, nb, tab@);
    }
    let u0: u64 = key.key(s[0]);
    if measure {
        hooks.on_read(s, 0);
        note_key(s[0], key.chunk(), hooks);
    }
    let ghost ks = images(key, s@);
    let mut xm: u64 = 0;
    let mut i: usize = 0;
    while i < n
        invariant
            keeps_record(*old(hooks), *hooks),
            H::records() ==> hooks.tally() == count_tally::<T, H>(old(hooks).tally(), s@, key.at(), width, measure, i as int),
            ks == images(key, s@),
            u0 == ks[0],
            xm == varying(ks, i as int),
            i <= n == s@.len(),
            n <= 0xFFFF_FFFF,
            readable(key, s@),
            shift < 64,
            w < 32,
            dg == digit_of::<T, F>(key, shift as nat, w as nat),
            nb == pow2(w as nat),
            counted(s@, dg, nb, i as int, tab@),
            forall|k: int| 0 <= k < i ==> agree_outside(image_of(key, #[trigger] s@[k]), u0, xm),
            tab@.len() == old(tab)@.len(),
        decreases n - i,
    {
        let u: u64 = key.key(s[i]);
        let b: usize = digit_at(u, shift, w);
        proof {
            assert(b as int == dg(s@[i as int]));
            assert(ks[i as int] == u);
            lemma_count_step(s@, dg, nb, i as int, tab@, tab@.update(b as int, (tab@[b as int] + 1) as u32));
            lemma_agree_or(u, u0, xm, 0);
            assert forall|k: int| 0 <= k < i implies agree_outside(image_of(key, #[trigger] s@[k]), u0, xm | (u ^ u0)) by {
                lemma_agree_or(image_of(key, s@[k]), u0, xm, u ^ u0);
            }
        }
        let c: u32 = tab[b];
        tab[b] = c + 1;
        hooks.on_read(s, i);
        note_key(s[i], key.chunk(), hooks);
        hooks.on_table(&*tab, b, 4, true, true);
        xm = xm | (u ^ u0);
        i += 1;
    }
    proof {
        assert forall|i: int, j: int| 0 <= i < s@.len() && 0 <= j < s@.len() implies agree_outside(image_of(key, #[trigger] s@[i]), image_of(key, #[trigger] s@[j]), xm) by {
            lemma_agree_through(image_of(key, s@[i]), image_of(key, s@[j]), u0, xm);
        }
    }
    xm
}

// ---- levels --------------------------------------------------------------------------------------
// A part too large for the cache is scattered once by its top key bits into
// buckets of about the size of the first-level cache. Each bucket is then sorted
// on the remaining bits while it sits in cache, by the fused passes (or by one
// more such level if it is still too large).

/// 64-bit keys in 8-bit digits, plus one.
pub const MAX_LEVELS: usize = 10;

/// Entries of a level's count table.
pub const LEVEL_TABLE: usize = 8192;

/// The bytes of `n` elements, or the largest size where that does not fit.
pub open spec fn byte_count<T>(n: nat) -> int {
    if n * vstd::layout::size_of::<T>() <= usize::MAX {
        (n * vstd::layout::size_of::<T>()) as int
    } else {
        usize::MAX as int
    }
}

/// Size in bytes, or the largest size where that does not fit.
pub fn byte_size(n: usize, each: usize) -> (r: usize)
    ensures
        n * each <= usize::MAX ==> r == n * each,
        n * each > usize::MAX ==> r == usize::MAX,
{
    match n.checked_mul(each) {
        Some(b) => b,
        None => usize::MAX,
    }
}

/// From this size on a part takes a top-digit level: a third of the last-level
/// cache, at least 4 MiB.
pub open spec fn level_bytes(caches: CacheSizes) -> int {
    if caches.l3 / 3 > 0x40_0000 {
        (caches.l3 / 3) as int
    } else {
        0x40_0000
    }
}

/// The size from which on a part takes a top-digit level.
pub fn msd_min_bytes(caches: CacheSizes) -> (r: usize)
    ensures
        r == level_bytes(caches),
{
    let third: usize = caches.l3 / 3;
    if third > 0x40_0000 {
        third
    } else {
        0x40_0000
    }
}

/// The size of a bucket: the first-level cache, within 16 and 64 KiB.
pub open spec fn bucket_size(caches: CacheSizes) -> int {
    if caches.l1d < 0x4000 {
        0x4000
    } else if caches.l1d > 0x1_0000 {
        0x1_0000
    } else {
        caches.l1d as int
    }
}

/// The bytes of a bucket, as large as the first level of the cache.
pub fn bucket_bytes(caches: CacheSizes) -> (r: usize)
    ensures
        r == bucket_size(caches),
{
    if caches.l1d < 0x4000 {
        0x4000
    } else if caches.l1d > 0x1_0000 {
        0x1_0000
    } else {
        caches.l1d
    }
}

/// The top digit for a level of `bytes` bytes whose keys vary in `bits` bits: as
/// wide as it takes to fit the cache, within 8 and `SPLIT_MAX_DIGIT`.
pub open spec fn level_width(bytes: int, bits: int, caches: CacheSizes) -> int {
    let l = log2_of(bytes / bucket_size(caches));
    let w = if l < 8 {
        8
    } else if l > SPLIT_MAX_DIGIT {
        SPLIT_MAX_DIGIT as int
    } else {
        l
    };
    if w < bits {
        w
    } else {
        bits
    }
}

/// The top digit for a level of `bytes` bytes whose keys vary in `bits` bits.
pub fn msd_width(bytes: usize, bits: u32, caches: CacheSizes) -> (r: u32)
    ensures
        r <= bits,
        r <= SPLIT_MAX_DIGIT,
        bits >= 8 ==> r >= 8,
        r == level_width(bytes as int, bits as int, caches),
{
    let l: usize = floor_log2(bytes / bucket_bytes(caches));
    let w: u32 = if l < 8 {
        8
    } else if l > SPLIT_MAX_DIGIT as usize {
        SPLIT_MAX_DIGIT
    } else {
        l as u32
    };
    if w < bits {
        w
    } else {
        bits
    }
}

/// The keys of a bucket differ in the mask's bits below the digit only.
pub proof fn lemma_bucket_within(x: u64, y: u64, xm: u64, mask: u64, shift: u32, w: u32, lm: u64)
    requires
        shift + w <= 64,
        shift < 64,
        w < 32,
        agree_outside(x, y, xm),
        agree_outside(x, y, mask),
        mask < pow2((shift + w) as nat),
        digit(x, shift as nat, w as nat) == digit(y, shift as nat, w as nat),
        lm == ((1u64 << shift) - 1) as u64,
    ensures
        agree_outside(x, y, xm & lm),
{
    let b = (shift + w) as nat;
    lemma_within_low(x, y, mask, b);
    lemma_shr_is_div(x, shift);
    lemma_shr_is_div(y, shift);
    let ps = pow2(shift as nat) as int;
    let pw = pow2(w as nat) as int;
    lemma_pow2_pos(shift as nat);
    lemma_pow2_pos(w as nat);
    vstd::arithmetic::power2::lemma_pow2_adds(shift as nat, w as nat);
    let xs = x as int / ps;
    let ys = y as int / ps;
    vstd::arithmetic::div_mod::lemma_div_denominator(x as int, ps, pw);
    vstd::arithmetic::div_mod::lemma_div_denominator(y as int, ps, pw);
    vstd::arithmetic::div_mod::lemma_fundamental_div_mod(xs, pw);
    vstd::arithmetic::div_mod::lemma_fundamental_div_mod(ys, pw);
    assert(xs == ys);
    assert((x ^ y) & !(xm & lm) == 0) by (bit_vector)
        requires
            (x ^ y) & !xm == 0,
            x >> shift == y >> shift,
            lm == ((1u64 << shift) - 1) as u64,
            shift < 64,
    ;
}

/// A smaller top digit means a smaller key.
pub proof fn lemma_digit_first(x: u64, y: u64, mask: u64, shift: u32, w: u32)
    requires
        shift + w <= 64,
        agree_outside(x, y, mask),
        mask < pow2((shift + w) as nat),
        digit(x, shift as nat, w as nat) < digit(y, shift as nat, w as nat),
    ensures
        x < y,
{
    let b = (shift + w) as nat;
    assert((y ^ x) & !mask == 0) by (bit_vector)
        requires
            (x ^ y) & !mask == 0,
    ;
    lemma_within_low(y, x, mask, b);
    lemma_low_step(y, x, shift as nat, w as nat);
}

/// What the buckets of a scatter by the digit `dg` must satisfy so that sorting
/// each sorts the whole.
pub open spec fn buckets_ready<T: Elem, F: KeyFn<T>>(key: F, orig: Seq<T>, dg: spec_fn(T) -> int, nb: nat, low: u64) -> bool {
    &&& radix_ready(key, orig)
    &&& digits_below(orig, dg, nb)
    &&& forall|x: T, y: T| #![trigger dg(x), dg(y)] x.chunks() == y.chunks() ==> dg(x) == dg(y)
    &&& forall|i: int, j: int|
        0 <= i < orig.len() && 0 <= j < orig.len() ==> (dg(#[trigger] orig[i]) < dg(#[trigger] orig[j]) ==> image_of(key, orig[i]) <= image_of(key, orig[j])) && (dg(orig[i]) == dg(orig[j])
            ==> agree_outside(image_of(key, orig[i]), image_of(key, orig[j]), low))
}

pub proof fn lemma_bucket_ready<T: Elem, F: KeyFn<T>>(key: F, orig: Seq<T>, dg: spec_fn(T) -> int, nb: nat, low: u64, b: nat)
    requires
        buckets_ready(key, orig, dg, nb, low),
        b < nb,
    ensures
        radix_ready(key, bucket(orig, dg, b as int)),
        keys_within(key, bucket(orig, dg, b as int), low),
{
    let f = bucket(orig, dg, b as int);
    let p = in_bucket(dg, b as int);
    assert forall|j: int| 0 <= j < f.len() implies orig.contains(#[trigger] f[j]) by {
        let i = lemma_filter_member(orig, p, j);
        assert(orig[i] == f[j]);
    }
    lemma_ready_members(key, orig, f);
    assert forall|i: int, j: int| 0 <= i < f.len() && 0 <= j < f.len() implies agree_outside(image_of(key, #[trigger] f[i]), image_of(key, #[trigger] f[j]), low) by {
        let k = lemma_filter_member(orig, p, i);
        let l = lemma_filter_member(orig, p, j);
        assert(dg(orig[k]) == dg(orig[l]));
    }
}

/// One more sorted bucket behind the sorted ones.
pub proof fn lemma_bucket_appends<T: Elem, F: KeyFn<T>>(key: F, orig: Seq<T>, dg: spec_fn(T) -> int, nb: nat, low: u64, b: nat, done: Seq<T>, r: Seq<T>)
    requires
        buckets_ready(key, orig, dg, nb, low),
        b < nb,
        part_sorted(key, gathered(orig, dg, b), done),
        part_sorted(key, bucket(orig, dg, b as int), r),
    ensures
        part_sorted(key, gathered(orig, dg, b + 1), done + r),
{
    let g = gathered(orig, dg, b);
    let f = bucket(orig, dg, b as int);
    let le = elem_le::<T>();
    let ile = by_key(whole_of::<T, F>(key));
    lemma_stable_add(le, g, f, done, r);
    lemma_permutation_add(g, f, done, r);
    lemma_gathered_sorted(orig, dg, b);
    lemma_gathered_sort(orig, dg, nb);
    lemma_gathered_prefix(orig, dg, b, nb);
    assert forall|i: int, j: int| 0 <= i < done.len() && 0 <= j < r.len() implies ile(#[trigger] done[i], #[trigger] r[j]) by {
        let k = lemma_permutation_member(done, g, i);
        let l = lemma_permutation_member(r, f, j);
        let m = lemma_filter_member(orig, in_bucket(dg, b as int), l);
        assert(0 <= dg(g[k]) < b);
        assert(gathered(orig, dg, nb)[k] == g[k]);
        let o = lemma_permutation_member(gathered(orig, dg, nb), orig, k);
        assert(dg(orig[o]) < dg(orig[m]));
    }
    lemma_sorted_add(ile, done, r);
}

/// The bits below `shift` in which the keys vary.
pub open spec fn level_low<T: Elem, F: KeyFn<T>>(key: F, a: Seq<T>, shift: int) -> u64 {
    varying(images(key, a), a.len() as int) & low_mask(shift as u32)
}

/// A bucket of `n` elements whose keys vary in `bits` bits takes one more level.
pub open spec fn goes_deeper<T>(n: nat, bits: int, level: int, caches: CacheSizes) -> bool {
    byte_count::<T>(n) >= level_bytes(caches) && bits > 8 && level + 1 < MAX_LEVELS
}

/// What sorting a bucket by the bits of `mask` leaves: a small one is sorted by
/// the whole elements, the others by the key.
pub open spec fn level_out<T: Elem, F: KeyFn<T>>(a: Seq<T>, key: F, mask: u64, level: int, caches: CacheSizes) -> Seq<T>
    decreases MAX_LEVELS - level, 1int, 0int,
{
    let bits = log2_of(mask as int) + 1;
    if a.len() < 2 || mask == 0 {
        a
    } else if a.len() <= INSERTION_MAX {
        stably(elem_le::<T>(), a)
    } else if goes_deeper::<T>(a.len(), bits, level, caches) {
        let w = level_width(byte_count::<T>(a.len()), bits, caches);
        let shift = bits - w;
        buckets_out(a, key, digit_of(key, shift as nat, w as nat), level_low(key, a, shift), level, caches, pow2(w as nat) as int)
    } else {
        stably(by_key(low_of(key, bits as nat)), a)
    }
}

/// What sorting the first `b` buckets leaves.
pub open spec fn buckets_out<T: Elem, F: KeyFn<T>>(a: Seq<T>, key: F, dg: spec_fn(T) -> int, low: u64, level: int, caches: CacheSizes, b: int) -> Seq<T>
    decreases MAX_LEVELS - level, 0int, b,
{
    if b <= 0 || level >= MAX_LEVELS {
        Seq::empty()
    } else {
        buckets_out(a, key, dg, low, level, caches, b - 1) + level_out(bucket(a, dg, b - 1), key, low, level + 1, caches)
    }
}

/// The record of the passes that sort a bucket.
pub open spec fn bucket_passes<T: Elem, F: KeyFn<T>, H: Hooks>(t: H::Tally, a: Seq<T>, key: F, mask: u64, to_src: bool) -> H::Tally {
    let n = a.len() as int;
    let bits = log2_of(mask as int) + 1;
    let plan = some_plan(bits as u32, balanced_width(bits, n, SPLIT_MAX_DIGIT as int) as u32);
    let width = pow2(plan.max_bits as nat) as usize;
    let first = live_to(plan, mask, plan.passes as int);
    let order = if first.len() == 0 {
        first
    } else {
        live_to(plan, varying(images(key, a), n), plan.passes as int)
    };
    let once = if first.len() == 0 {
        t
    } else {
        count_tally::<T, H>(t, a, key.at(), width, true, n)
    };
    let counted = if order.len() > 0 && order[0] != first[0] {
        count_tally::<T, H>(once, a, key.at(), width, false, n)
    } else {
        once
    };
    let skipped = if order.len() > 0 {
        H::after(counted, Note::Count(Stat::PassesSkipped, (plan.passes - order.len()) as u64))
    } else {
        counted
    };
    moved_tally::<H>(passes_tally::<T, F, H>(skipped, a, key, plan, order, order.len() as int), n, order.len() % 2 == 0, to_src, false)
}

/// The record of sorting a bucket.
pub open spec fn level_tally<T: Elem, F: KeyFn<T>, H: Hooks>(t: H::Tally, a: Seq<T>, key: F, mask: u64, to_src: bool, level: int, caches: CacheSizes) -> H::Tally
    decreases MAX_LEVELS - level, 1int, 0int,
{
    let n = a.len() as int;
    let bits = log2_of(mask as int) + 1;
    if n < 2 || mask == 0 {
        moved_tally::<H>(t, n, true, to_src, false)
    } else if n <= INSERTION_MAX {
        moved_tally::<H>(insertion_tally::<T, Natural, H>(&Natural, elem_le::<T>(), t, a, n), n, true, to_src, false)
    } else if goes_deeper::<T>(a.len(), bits, level, caches) {
        let w = level_width(byte_count::<T>(a.len()), bits, caches);
        let shift = bits - w;
        let size = pow2(w as nat) as usize;
        let counted = H::after(count_tally::<T, H>(t, a, key.at(), size, true, n), Note::Count(Stat::RadixPasses, 1));
        buckets_tally::<T, F, H>(
            scatter_tally::<T, H>(counted, a, key.at(), size, false, 0, n),
            a,
            key,
            digit_of(key, shift as nat, w as nat),
            level_low(key, a, shift),
            to_src,
            level,
            caches,
            pow2(w as nat) as int,
        )
    } else {
        bucket_passes::<T, F, H>(t, a, key, mask, to_src)
    }
}

/// The record of sorting the first `b` buckets.
pub open spec fn buckets_tally<T: Elem, F: KeyFn<T>, H: Hooks>(
    t: H::Tally,
    a: Seq<T>,
    key: F,
    dg: spec_fn(T) -> int,
    low: u64,
    to_src: bool,
    level: int,
    caches: CacheSizes,
    b: int,
) -> H::Tally
    decreases MAX_LEVELS - level, 0int, b,
{
    if b <= 0 || level >= MAX_LEVELS {
        t
    } else {
        let u = H::after(buckets_tally::<T, F, H>(t, a, key, dg, low, to_src, level, caches, b - 1), table_note(1, 4, true, false));
        let f = bucket(a, dg, b - 1);
        if f.len() == 0 {
            u
        } else {
            level_tally::<T, F, H>(u, f, key, low, !to_src, level + 1, caches)
        }
    }
}

/// The record of the passes, by the plan that was made.
proof fn lemma_bucket_passes<T: Elem, F: KeyFn<T>, H: Hooks>(t: H::Tally, a: Seq<T>, key: F, mask: u64, plan: DigitPlan, bits: u32, width: u32, to_src: bool)
    requires
        mask != 0,
        bits == log2_of(mask as int) + 1,
        width == balanced_width(bits as int, a.len() as int, SPLIT_MAX_DIGIT as int),
        made(plan, bits as int, width as int),
        width > 0,
        bits > 0,
    ensures
        ({
            let n = a.len() as int;
            let size = pow2(plan.max_bits as nat) as usize;
            let first = live_to(plan, mask, plan.passes as int);
            let order = if first.len() == 0 {
                first
            } else {
                live_to(plan, varying(images(key, a), n), plan.passes as int)
            };
            let once = if first.len() == 0 {
                t
            } else {
                count_tally::<T, H>(t, a, key.at(), size, true, n)
            };
            let counted = if order.len() > 0 && order[0] != first[0] {
                count_tally::<T, H>(once, a, key.at(), size, false, n)
            } else {
                once
            };
            let skipped = if order.len() > 0 {
                H::after(counted, Note::Count(Stat::PassesSkipped, (plan.passes - order.len()) as u64))
            } else {
                counted
            };
            bucket_passes::<T, F, H>(t, a, key, mask, to_src) == moved_tally::<H>(
                passes_tally::<T, F, H>(skipped, a, key, plan, order, order.len() as int),
                n,
                order.len() % 2 == 0,
                to_src,
                false,
            )
        }),
{
    let n = a.len() as int;
    let d = some_plan(bits, width);
    lemma_made_alike(plan, d, bits as int, width as int);
    assert(plan.passes > 0) by {
        assert((bits + width - 1) / width as int >= 1) by (nonlinear_arith)
            requires
                bits > 0,
                width > 0,
        ;
    }
    let xm = varying(images(key, a), n);
    lemma_live_alike(plan, d, mask, plan.passes as int);
    lemma_live_alike(plan, d, xm, plan.passes as int);
    let size = pow2(plan.max_bits as nat) as usize;
    let first = live_to(plan, mask, plan.passes as int);
    let order = if first.len() == 0 {
        first
    } else {
        live_to(plan, xm, plan.passes as int)
    };
    let once = if first.len() == 0 {
        t
    } else {
        count_tally::<T, H>(t, a, key.at(), size, true, n)
    };
    let counted = if order.len() > 0 && order[0] != first[0] {
        count_tally::<T, H>(once, a, key.at(), size, false, n)
    } else {
        once
    };
    let skipped = if order.len() > 0 {
        H::after(counted, Note::Count(Stat::PassesSkipped, (plan.passes - order.len()) as u64))
    } else {
        counted
    };
    lemma_passes_alike::<T, F, H>(skipped, a, key, plan, d, order, order.len() as int);
}

/// Sorts the buckets of a scatter, each on the bits of `low`, from `d` where
/// they stand to `s` or `d` as asked. `pos` holds the ends of the buckets.
#[verifier::rlimit(40)]
pub fn sort_buckets<T: Elem, F: KeyFn<T>, H: Hooks>(
    s: &mut [T],
    d: &mut [T],
    key: F,
    low: u64,
    result_in_s: bool,
    pos: &[u32],
    b_count: usize,
    tabs: &mut [u32],
    level: usize,
    caches: CacheSizes,
    hooks: &mut H,
    Ghost(orig): Ghost<Seq<T>>,
    Ghost(dg): Ghost<spec_fn(T) -> int>,
)
    requires
        orig.len() <= 0xFFFF_FFFF,
        old(s)@.len() == orig.len(),
        old(d)@ == gathered(orig, dg, b_count as nat),
        buckets_ready(key, orig, dg, b_count as nat, low),
        positioned(orig, dg, b_count as nat, orig.len() as int, pos@),
        level < MAX_LEVELS,
        old(tabs)@.len() >= (MAX_LEVELS + 1 - level) * LEVEL_TABLE,
    ensures
        keeps_record(*old(hooks), *final(hooks)),
        H::records() ==> final(hooks).tally() == buckets_tally::<T, F, H>(old(hooks).tally(), orig, key, dg, low, result_in_s, level as int, caches, b_count as int),
        (if result_in_s {
            final(s)@
        } else {
            final(d)@
        }) == buckets_out(orig, key, dg, low, level as int, caches, b_count as int),
        result_in_s ==> part_sorted(key, orig, final(s)@),
        !result_in_s ==> part_sorted(key, orig, final(d)@),
        final(s)@.len() == old(s)@.len(),
        final(d)@.len() == old(d)@.len(),
        final(tabs)@.len() == old(tabs)@.len(),
    decreases MAX_LEVELS - level, 0int,
{
    let n: usize = s.len();
    let ghost nb = b_count as nat;
    let ghost g = d@;
    let mut lo: usize = 0;
    let mut b: usize = 0;
    proof {
        lemma_gathered_sort(orig, dg, nb);
        assert(orig.take(n as int) =~= orig);
        assert(gathered(orig, dg, 0) =~= s@.take(0));
        assert(gathered(orig, dg, 0) =~= d@.take(0));
    }
    while b < b_count
        invariant
            keeps_record(*old(hooks), *hooks),
            H::records() ==> hooks.tally() == buckets_tally::<T, F, H>(old(hooks).tally(), orig, key, dg, low, result_in_s, level as int, caches, b as int),
            (if result_in_s {
                s@.take(lo as int)
            } else {
                d@.take(lo as int)
            }) == buckets_out(orig, key, dg, low, level as int, caches, b as int),
            b <= b_count,
            nb == b_count,
            n == orig.len() == s@.len() == d@.len() == g.len(),
            n <= 0xFFFF_FFFF,
            orig.take(n as int) == orig,
            g == gathered(orig, dg, nb),
            lo == start(orig, dg, b as nat),
            lo <= n,
            buckets_ready(key, orig, dg, nb, low),
            positioned(orig, dg, nb, n as int, pos@),
            level < MAX_LEVELS,
            tabs@.len() >= (MAX_LEVELS + 1 - level) * LEVEL_TABLE,
            tabs@.len() == old(tabs)@.len(),
            part_sorted(
                key,
                gathered(orig, dg, b as nat),
                if result_in_s {
                    s@.take(lo as int)
                } else {
                    d@.take(lo as int)
                },
            ),
            forall|k: int| lo <= k < n ==> d@[k] == g[k],
        decreases b_count - b,
    {
        let hi: usize = pos[b] as usize;
        hooks.on_table(pos, b, 4, true, false);
        let ghost f = bucket(orig, dg, b as int);
        let ghost done = if result_in_s {
            s@.take(lo as int)
        } else {
            d@.take(lo as int)
        };
        proof {
            lemma_start_step(orig, dg, b as nat);
            lemma_gathered_bucket(orig, dg, b as nat, nb);
            lemma_bucket_ready(key, orig, dg, nb, low, b as nat);
            assert(d@.subrange(lo as int, hi as int) =~= f);
        }
        if hi > lo {
            let ghost s0 = s@;
            let ghost d0 = d@;
            {
                let (sl, sr) = s.split_at_mut(lo);
                let (sm, se) = sr.split_at_mut(hi - lo);
                let (dl, dr) = d.split_at_mut(lo);
                let (dm, de) = dr.split_at_mut(hi - lo);
                assert(dm@ =~= f);
                level_run(dm, sm, low, key, !result_in_s, tabs, level + 1, caches, hooks);
                proof {
                    let r = if result_in_s {
                        sm@
                    } else {
                        dm@
                    };
                    lemma_permutation_len(f, r);
                    lemma_bucket_appends(key, orig, dg, nb, low, b as nat, done, r);
                    if result_in_s {
                        assert((sl@ + (sm@ + se@)).take(hi as int) =~= done + r);
                    } else {
                        assert((dl@ + (dm@ + de@)).take(hi as int) =~= done + r);
                    }
                    assert forall|k: int| hi <= k < n implies (dl@ + (dm@ + de@))[k] == g[k] by {
                        assert(de@[k - hi] == d0[k]);
                    }
                }
            }
        } else {
            proof {
                assert(f =~= Seq::<T>::empty());
                assert(level_out(f, key, low, level + 1, caches) == f);
                assert(bucket(orig, dg, (b + 1) - 1) == f);
                assert(buckets_out(orig, key, dg, low, level as int, caches, b + 1) =~= buckets_out(orig, key, dg, low, level as int, caches, b as int));
                assert(gathered(orig, dg, (b + 1) as nat) =~= gathered(orig, dg, b as nat));
            }
        }
        lo = hi;
        b += 1;
    }
    proof {
        let out = if result_in_s {
            s@
        } else {
            d@
        };
        assert(out.take(n as int) =~= out);
        lemma_coarse_stable(dg, orig, g);
        lemma_stable_trans(elem_le::<T>(), orig, g, out);
    }
}

/// The levels below the top one: sorts one bucket, `s`, whose keys differ in
/// bits of `mask` only, with `d` as the other buffer and the result in `s` or
/// `d` as asked. The bucket's histogram pass refines the mask, so digits that
/// are constant within the bucket are skipped.
#[verifier::rlimit(40)]
pub fn level_run<T: Elem, F: KeyFn<T>, H: Hooks>(s: &mut [T], d: &mut [T], mask: u64, key: F, result_in_s: bool, tabs: &mut [u32], level: usize, caches: CacheSizes, hooks: &mut H)
    requires
        old(s)@.len() <= 0xFFFF_FFFF,
        old(d)@.len() == old(s)@.len(),
        radix_ready(key, old(s)@),
        keys_within(key, old(s)@, mask),
        level <= MAX_LEVELS,
        old(tabs)@.len() >= (MAX_LEVELS + 2 - level) * LEVEL_TABLE,
    ensures
        keeps_record(*old(hooks), *final(hooks)),
        H::records() ==> final(hooks).tally() == level_tally::<T, F, H>(old(hooks).tally(), old(s)@, key, mask, result_in_s, level as int, caches),
        (if result_in_s {
            final(s)@
        } else {
            final(d)@
        }) == level_out(old(s)@, key, mask, level as int, caches),
        result_in_s ==> part_sorted(key, old(s)@, final(s)@),
        !result_in_s ==> part_sorted(key, old(s)@, final(d)@),
        final(s)@.len() == old(s)@.len(),
        final(d)@.len() == old(s)@.len(),
        final(tabs)@.len() == old(tabs)@.len(),
    decreases MAX_LEVELS - level, 1int,
{
    let ghost a = s@;
    let m: usize = s.len();
    if m < 2 || mask == 0 {
        proof {
            lemma_constant_sorts(key, a, mask);
        }
        if !result_in_s {
            copy_all(s, d);
            note_copies(&*s, 0, &*d, 0, m, hooks);
        }
        return;
    }
    if m <= INSERTION_MAX {
        insertion_sort(s, hooks);
        proof {
            lemma_elem_sorts(key, a, s@);
            lemma_permutation_len(a, s@);
            lemma_elem_le_total::<T>();
            lemma_stably(elem_le::<T>(), a, s@);
        }
        if !result_in_s {
            copy_all(s, d);
            note_copies(&*s, 0, &*d, 0, m, hooks);
        }
        return;
    }
    proof {
        mask.word_fits();
    }
    let bits: u32 = highest_bit(mask) + 1;
    let bytes: usize = byte_size(m, core::mem::size_of::<T>());
    assert(bytes == byte_count::<T>(a.len()));
    proof {
        vstd::arithmetic::power2::lemma2_to64();
        assert(1 * LEVEL_TABLE <= (MAX_LEVELS + 2 - level) * LEVEL_TABLE);
    }
    let (tab, rest) = tabs.split_at_mut(LEVEL_TABLE);
    if bytes >= msd_min_bytes(caches) && bits > 8 && level + 1 < MAX_LEVELS {
        let w: u32 = msd_width(bytes, bits, caches);
        let shift: u32 = bits - w;
        proof {
            lemma_pow2_le(w as nat, 13);
        }
        let b_count: usize = table_size(w);
        let xm: u64 = count_digits(s, key, shift, w, tab, b_count, true, hooks);
        let ghost dg = digit_of::<T, F>(key, shift as nat, w as nat);
        hooks.stat(Stat::RadixPasses, 1);
        scatter_pass(s, d, key, shift, w, tab, rest, false, 0, 0, 0, hooks);
        proof {
            lemma_one_shl(shift);
            lemma_pow2_fits(shift as nat);
        }
        let lm: u64 = (1u64 << shift) - 1;
        let low: u64 = xm & lm;
        assert(low == level_low(key, a, shift as int));
        proof {
            lemma_scatter_ready(key, a, mask, xm, shift, w, lm);
        }
        sort_buckets(s, d, key, low, result_in_s, tab, b_count, rest, level, caches, hooks, Ghost(a), Ghost(dg));
        return;
    }
    let dw: u32 = digit_width(bits, m, SPLIT_MAX_DIGIT);
    let plan = make_plan(bits, dw);
    let mut order: [usize; 8] = [0usize; 8];
    let mut live: usize = live_passes(&plan, mask, &mut order);
    let ghost mut within: u64 = mask;
    proof {
        lemma_pow2_le(plan.max_bits as nat, 13);
        lemma_bucket_passes::<T, F, H>(hooks.tally(), a, key, mask, plan, bits, dw, result_in_s);
    }
    let ghost first = listed(order@, live as int);
    if live > 0 {
        let p0: usize = order[0];
        assert(first[0] == p0);
        proof {
            lemma_pow2_le(plan.bits[p0 as int] as nat, plan.max_bits as nat);
        }
        let xm: u64 = count_digits(s, key, plan.shift[p0], plan.bits[p0], tab, plan.width(), true, hooks);
        if xm != mask {
            live = live_passes(&plan, xm, &mut order);
            proof {
                within = xm;
            }
            if live > 0 && order[0] != p0 {
                let p1: usize = order[0];
                proof {
                    lemma_pow2_le(plan.bits[p1 as int] as nat, plan.max_bits as nat);
                }
                let again: u64 = count_digits(s, key, plan.shift[p1], plan.bits[p1], tab, plan.width(), false, hooks);
            }
        }
    }
    proof {
        let now = listed(order@, live as int);
        if live > 0 {
            assert(now[0] == order@[0]);
        }
    }
    if live > 0 {
        hooks.stat(Stat::PassesSkipped, (plan.passes - live) as u64);
    }
    radix_passes(s, d, &plan, key, &order, live, tab, rest, result_in_s, false, hooks, Ghost(bits as nat), Ghost(within));
    proof {
        let out = if result_in_s {
            s@
        } else {
            d@
        };
        lemma_low_sorts(key, a, out, mask, bits as nat);
        lemma_by_key_total(low_of::<T, F>(key, bits as nat));
        lemma_stably(by_key(low_of::<T, F>(key, bits as nat)), a, out);
    }
}

/// A scatter by the top digit of the varying bits leaves buckets that only have
/// to be sorted on the bits below.
pub proof fn lemma_scatter_ready<T: Elem, F: KeyFn<T>>(key: F, a: Seq<T>, mask: u64, xm: u64, shift: u32, w: u32, lm: u64)
    requires
        shift + w <= 64,
        shift < 64,
        w < 32,
        radix_ready(key, a),
        keys_within(key, a, mask),
        keys_within(key, a, xm),
        mask < pow2((shift + w) as nat),
        lm == ((1u64 << shift) - 1) as u64,
    ensures
        buckets_ready(key, a, digit_of(key, shift as nat, w as nat), pow2(w as nat), xm & lm),
{
    let dg = digit_of::<T, F>(key, shift as nat, w as nat);
    assert forall|i: int| 0 <= i < a.len() implies 0 <= dg(#[trigger] a[i]) < pow2(w as nat) by {
        lemma_digit(image_of(key, a[i]), shift, w);
    }
    assert forall|i: int, j: int| 0 <= i < a.len() && 0 <= j < a.len() implies (dg(#[trigger] a[i]) < dg(#[trigger] a[j]) ==> image_of(key, a[i]) <= image_of(key, a[j])) && (dg(a[i]) == dg(a[j])
        ==> agree_outside(image_of(key, a[i]), image_of(key, a[j]), xm & lm)) by {
        let (x, y) = (image_of(key, a[i]), image_of(key, a[j]));
        if dg(a[i]) < dg(a[j]) {
            lemma_digit_first(x, y, mask, shift, w);
        } else if dg(a[i]) == dg(a[j]) {
            lemma_bucket_within(x, y, xm, mask, shift, w, lm);
        }
    }
}

} // verus!
