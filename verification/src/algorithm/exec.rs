//! Running a radix plan on a part, and holding a plan that was made from a
//! sample against every key.
use crate::algorithm::{retold, tables_for, track, Tools, Track};
use crate::algorithm::level::{
    buckets_out, buckets_tally, byte_count, byte_size, images, lemma_low_sorts,
    lemma_ready_permutation, lemma_scatter_ready, level_bytes, level_low, level_width,
    msd_min_bytes, msd_width, part_sorted, radix_ready, sort_buckets, LEVEL_TABLE, MAX_LEVELS,
};
use crate::algorithm::plan::{PlanKind, RadixPlan};
use crate::bits::{
    agree_outside, lemma_agree_or, lemma_agree_through, lemma_one_shl, lemma_pow2_32,
    lemma_pow2_fits, lemma_pow2_le, lemma_u64_lt_pow2_64,
};
use crate::cpu::CacheSizes;
use crate::gather::{counted, lemma_count_start, lemma_count_step};
use crate::order::{by_key, lemma_by_key_total, lemma_stably, permutation, sorted, stable, stably};
use crate::radix::{
    clear_table, copy_all, digit_at, digit_of, image_of, keys_within, lemma_all_dead,
    lemma_full_mask_live, lemma_live_alike, lemma_low_zero, lemma_made_alike, lemma_none_live,
    lemma_pass_extends, lemma_passes_alike, listed, live_passes, live_to, low_of, made, make_plan,
    moved_tally, passes_tally, radix_passes, readable, scatter_pass, scatter_tally, table_size,
    whole_of, DigitPlan, FullKey, KeyFn, PextKeySoft, ShiftKey, SubKey,
};
use crate::view::{
    agree_below, asks_for, asks_more, elem_le, highest_bit, keeps_record, lemma_record, log2_of,
    note_copies, note_key, table_note, too_large, Alloc, AllocError, Elem, Hooks, Note, RadixKey,
    Stat,
};
use vstd::arithmetic::power2::{lemma_pow2_pos, pow2};
use vstd::prelude::*;

verus! {

/// The key of one chunk.
pub open spec fn chunk_key<T: Elem>(c: int) -> spec_fn(T) -> int {
    |x: T| x.chunks()[c] as int
}

/// Every element has chunk `c`, and they agree on those before it.
pub open spec fn chunk_ready<T: Elem>(s: Seq<T>, c: int) -> bool {
    &&& 0 <= c
    &&& forall|i: int| 0 <= i < s.len() ==> c < (#[trigger] s[i]).chunks().len()
    &&& forall|i: int, j: int| 0 <= i < s.len() && 0 <= j < s.len() ==> agree_below((#[trigger] s[i]).chunks(), (#[trigger] s[j]).chunks(), c)
}

/// `b` is sorted by chunk `c`, and tied elements stand as they stood in `a`.
pub open spec fn chunk_sorted<T: Elem>(c: int, a: Seq<T>, b: Seq<T>) -> bool {
    &&& sorted(by_key(chunk_key(c)), b)
    &&& stable(elem_le::<T>(), a, b)
    &&& permutation(a, b)
}

/// Every pair of raw keys differs in bits of `mask` only.
pub open spec fn raw_within<T: Elem>(s: Seq<T>, c: int, mask: u64) -> bool {
    forall|i: int, j: int| 0 <= i < s.len() && 0 <= j < s.len() ==> agree_outside((#[trigger] s[i]).chunks()[c], (#[trigger] s[j]).chunks()[c], mask)
}

/// The bits in which the first `n` words differ from the first.
pub open spec fn varying(s: Seq<u64>, n: int) -> u64
    decreases n,
{
    if n <= 0 {
        0
    } else {
        varying(s, n - 1) | (s[n - 1] ^ s[0])
    }
}

/// The keys of chunk `c`.
pub open spec fn words_at<T: Elem>(s: Seq<T>, c: int) -> Seq<u64> {
    s.map_values(|x: T| x.chunks()[c])
}

/// A word does not vary alone.
pub proof fn lemma_varying_one(s: Seq<u64>)
    ensures
        varying(s, 0) == 0,
        varying(s, 1) == 0,
{
    let k = s[0];
    assert(0u64 | (k ^ k) == 0) by (bit_vector);
    assert(varying(s, 0) == 0);
}

/// Bits are joined in any order.
pub proof fn lemma_or_turn(a: u64, d: u64, m: u64)
    ensures
        (a | d) | m == a | (m | d),
        a | 0 == a,
        0u64 | a == a,
{
    assert((a | d) | m == a | (m | d) && a | 0 == a && 0u64 | a == a) by (bit_vector);
}

/// Words that agree outside `mask` vary in its bits only.
pub proof fn lemma_varying_within(s: Seq<u64>, n: int, mask: u64)
    requires
        forall|i: int| 0 <= i < n ==> agree_outside(#[trigger] s[i], s[0], mask),
    ensures
        varying(s, n) & !mask == 0,
    decreases n,
{
    if n <= 0 {
        assert(0u64 & !mask == 0) by (bit_vector);
    } else {
        lemma_varying_within(s, n - 1, mask);
        let (v, d) = (varying(s, n - 1), s[n - 1] ^ s[0]);
        assert(agree_outside(s[n - 1], s[0], mask));
        assert((v | d) & !mask == 0) by (bit_vector)
            requires
                v & !mask == 0,
                d & !mask == 0,
        ;
    }
}

/// The plan holds of every key of chunk `c`.
pub open spec fn plan_holds<T: Elem>(p: RadixPlan, s: Seq<T>, c: int) -> bool {
    &&& raw_within(s, c, p.assumed)
    &&& forall|i: int| 0 <= i < s.len() ==> in_plan(p, T::Key::BITS, (#[trigger] s[i]).chunks()[c])
}

/// The largest key of `kb` bits.
pub open spec fn key_max(kb: u32) -> u64 {
    if kb == 32 {
        0xFFFF_FFFF
    } else {
        u64::MAX
    }
}

/// The low `bits` bits.
pub open spec fn low_mask(bits: u32) -> u64 {
    if bits >= 64 {
        u64::MAX
    } else {
        (pow2(bits as nat) - 1) as u64
    }
}

/// The plan holds of the raw key `x`.
pub open spec fn in_plan(p: RadixPlan, kb: u32, x: u64) -> bool {
    &&& x <= key_max(kb)
    &&& p.kind is Sub ==> p.base <= x && x - p.base < pow2(p.bits as nat)
}

/// The key function keeps the order of the keys that the plan holds of, and
/// leaves differences in the plan's bits only.
pub open spec fn serves<T: Elem, F: KeyFn<T>>(p: RadixPlan, kb: u32, key: F) -> bool {
    forall|x: u64, y: u64|
        in_plan(p, kb, x) && in_plan(p, kb, y) && agree_outside(x, y, p.assumed) ==> (#[trigger] key.image(x) <= #[trigger] key.image(y)) == (x <= y) && agree_outside(
            key.image(x),
            key.image(y),
            low_mask(p.bits),
        )
}

/// Words below a power of two differ in the bits below it only.
pub proof fn lemma_small_agree(x: u64, y: u64, b: u32)
    requires
        b <= 64,
        x < pow2(b as nat),
        y < pow2(b as nat),
    ensures
        agree_outside(x, y, low_mask(b)),
{
    let m = low_mask(b);
    if b < 64 {
        lemma_one_shl(b);
        lemma_pow2_fits(b as nat);
        assert((x ^ y) & !m == 0) by (bit_vector)
            requires
                b < 64,
                m == ((1u64 << b) - 1) as u64,
                x <= m,
                y <= m,
        ;
    } else {
        assert((x ^ y) & !u64::MAX == 0) by (bit_vector);
    }
}

pub proof fn lemma_key_max(kb: u32, x: u64)
    requires
        kb == 32 || kb == 64,
        x <= key_max(kb),
    ensures
        x < pow2(kb as nat),
{
    lemma_pow2_32();
    lemma_u64_lt_pow2_64(x);
}

pub proof fn lemma_full_serves<T: Elem>(p: RadixPlan, kb: u32, chunk: u64)
    requires
        p.kind is Full,
        p.wf(kb),
        p.bits == kb,
        kb == 32 || kb == 64,
    ensures
        serves::<T, FullKey>(p, kb, FullKey { chunk }),
{
    let key = FullKey { chunk };
    assert forall|x: u64, y: u64| in_plan(p, kb, x) && in_plan(p, kb, y) && agree_outside(x, y, p.assumed) implies (#[trigger] KeyFn::<T>::image(&key, x) <= #[trigger] KeyFn::<T>::image(&key, y)) == (x
        <= y) && agree_outside(KeyFn::<T>::image(&key, x), KeyFn::<T>::image(&key, y), low_mask(p.bits)) by {
        lemma_key_max(kb, x);
        lemma_key_max(kb, y);
        lemma_small_agree(x, y, kb);
    }
}

pub proof fn lemma_shift_serves<T: Elem>(p: RadixPlan, kb: u32, chunk: u64)
    requires
        p.kind is Shift,
        p.wf(kb),
        kb == 32 || kb == 64,
    ensures
        serves::<T, ShiftKey>(p, kb, ShiftKey { chunk, low: p.low }),
{
    let key = ShiftKey { chunk, low: p.low };
    let low = p.low;
    assert forall|x: u64, y: u64| in_plan(p, kb, x) && in_plan(p, kb, y) && agree_outside(x, y, p.assumed) implies (#[trigger] KeyFn::<T>::image(&key, x) <= #[trigger] KeyFn::<T>::image(&key, y)) == (x
        <= y) && agree_outside(KeyFn::<T>::image(&key, x), KeyFn::<T>::image(&key, y), low_mask(p.bits)) by {
        if p.bits >= kb {
            lemma_key_max(kb, x);
            lemma_key_max(kb, y);
            lemma_small_agree(x, y, kb);
            assert(x >> 0u32 == x && y >> 0u32 == y) by (bit_vector);
        } else {
            let o = low_mask(p.bits);
            lemma_pow2_fits(p.bits as nat);
            lemma_pow2_pos(low as nat);
            vstd::arithmetic::power2::lemma_pow2_adds(p.bits as nat, low as nat);
            lemma_pow2_le((p.bits + low) as nat, 64);
            vstd::arithmetic::power2::lemma2_to64_rest();
            let pl = pow2(low as nat) as int;
            let pb = pow2(p.bits as nat) as int;
            assert((pb - 1) * pl == pb * pl - pl) by (nonlinear_arith);
            vstd::bits::lemma_u64_shl_is_mul(o, low as u64);
            let a = p.assumed;
            let low64 = low as u64;
            assert(a == o << low64);
            assert(((x <= y) == ((x >> low) <= (y >> low))) && ((x >> low) ^ (y >> low)) & !o == 0) by (bit_vector)
                requires
                    (x ^ y) & !a == 0,
                    a == o << low64,
                    low64 == low as u64,
                    low < 64,
            ;
        }
    }
}

pub proof fn lemma_pext_serves<T: Elem>(p: RadixPlan, kb: u32, chunk: u64)
    requires
        p.kind is Pext,
        p.wf(kb),
        kb == 32 || kb == 64,
    ensures
        serves::<T, PextKeySoft>(p, kb, PextKeySoft { chunk, mask: p.pmask }),
{
    let key = PextKeySoft { chunk, mask: p.pmask };
    assert forall|x: u64, y: u64| in_plan(p, kb, x) && in_plan(p, kb, y) && agree_outside(x, y, p.assumed) implies (#[trigger] KeyFn::<T>::image(&key, x) <= #[trigger] KeyFn::<T>::image(&key, y)) == (x
        <= y) && agree_outside(KeyFn::<T>::image(&key, x), KeyFn::<T>::image(&key, y), low_mask(p.bits)) by {
        crate::bits::lemma_pext_order(x, y, p.pmask);
        crate::bits::lemma_pext_bound(x, p.pmask);
        crate::bits::lemma_pext_bound(y, p.pmask);
        lemma_small_agree(crate::bits::pext(x, p.pmask) as u64, crate::bits::pext(y, p.pmask) as u64, p.bits);
    }
}

pub proof fn lemma_sub_serves<T: Elem>(p: RadixPlan, kb: u32, chunk: u64)
    requires
        p.kind is Sub,
        p.wf(kb),
        kb == 32 || kb == 64,
    ensures
        serves::<T, SubKey>(p, kb, SubKey { chunk, base: p.base }),
{
    let key = SubKey { chunk, base: p.base };
    assert forall|x: u64, y: u64| in_plan(p, kb, x) && in_plan(p, kb, y) && agree_outside(x, y, p.assumed) implies (#[trigger] KeyFn::<T>::image(&key, x) <= #[trigger] KeyFn::<T>::image(&key, y)) == (x
        <= y) && agree_outside(KeyFn::<T>::image(&key, x), KeyFn::<T>::image(&key, y), low_mask(p.bits)) by {
        lemma_small_agree((x - p.base) as u64, (y - p.base) as u64, p.bits);
    }
}

/// What a plan's counting pass found.
pub struct Counted {
    /// The plan holds of every key.
    pub fits: bool,
    /// The varying bits of the raw keys.
    pub raw: u64,
    /// The varying bits of the plan's keys.
    pub image: u64,
}

/// The record once a digit of the first `i` elements was counted in a table of
/// `width` entries; with `measure` the first element was looked at before.
pub open spec fn count_tally<T: Elem, H: Hooks>(t: H::Tally, s: Seq<T>, c: int, width: usize, measure: bool, i: int) -> H::Tally
    decreases i,
{
    if i <= 0 {
        let swept = H::after(t, table_note(width, 4, false, true));
        if measure {
            H::after(H::after(swept, Note::Read), Note::Key(s[0].key_load(c) as u64))
        } else {
            swept
        }
    } else {
        let u = count_tally::<T, H>(t, s, c, width, measure, i - 1);
        H::after(H::after(H::after(u, Note::Read), Note::Key(s[i - 1].key_load(c) as u64)), table_note(1, 4, true, true))
    }
}

/// Counts a digit as [`count_digits`] does and holds the plan against every
/// key on the way.
#[verifier::rlimit(40)]
pub fn count_checked<T: Elem, F: KeyFn<T>, H: Hooks>(
    s: &[T],
    chunk: u64,
    p: &RadixPlan,
    key: F,
    shift: u32,
    w: u32,
    tab: &mut [u32],
    width: usize,
    measure: bool,
    hooks: &mut H,
) -> (r: Counted)
    requires
        0 < s@.len() <= 0xFFFF_FFFF,
        readable(key, s@),
        key.at() == chunk,
        chunk_ready(s@, chunk as int),
        p.wf(T::Key::BITS),
        shift < 64,
        w < 32,
        pow2(w as nat) <= old(tab)@.len(),
    ensures
        keeps_record(*old(hooks), *final(hooks)),
        H::records() ==> final(hooks).tally() == count_tally::<T, H>(old(hooks).tally(), s@, chunk as int, width, measure, s@.len() as int),
        counted(s@, digit_of(key, shift as nat, w as nat), pow2(w as nat), s@.len() as int, final(tab)@),
        keys_within(key, s@, r.image),
        r.image == varying(images(key, s@), s@.len() as int),
        raw_within(s@, chunk as int, r.raw),
        r.raw == varying(words_at(s@, chunk as int), s@.len() as int),
        r.fits <==> plan_holds(*p, s@, chunk as int),
        final(tab)@.len() == old(tab)@.len(),
{
    let n: usize = s.len();
    let ghost dg = digit_of::<T, F>(key, shift as nat, w as nat);
    let ghost nb = pow2(w as nat);
    let ghost c = chunk as int;
    let size: usize = table_size(w);
    clear_table(tab, size);
    hooks.on_table_sweep(&*tab, width, 4, false, true);
    proof {
        lemma_count_start(s@, dg, nb, tab@);
    }
    let sub = match p.kind {
        PlanKind::Sub => true,
        _ => false,
    };
    let k0: u64 = T::radix_key(s[0], chunk).to_u64();
    let u0: u64 = key.raw(k0);
    if measure {
        hooks.on_read(s, 0);
        note_key(s[0], chunk, hooks);
    }
    let mut xm: u64 = 0;
    let mut um: u64 = 0;
    let mut out = false;
    let mut i: usize = 0;
    let ghost ks = words_at(s@, c);
    let ghost us = images(key, s@);
    while i < n
        invariant
            keeps_record(*old(hooks), *hooks),
            H::records() ==> hooks.tally() == count_tally::<T, H>(old(hooks).tally(), s@, c, width, measure, i as int),
            i <= n == s@.len(),
            n <= 0xFFFF_FFFF,
            readable(key, s@),
            key.at() == chunk == c,
            chunk_ready(s@, c),
            p.wf(T::Key::BITS),
            sub == (p.kind is Sub),
            shift < 64,
            w < 32,
            dg == digit_of::<T, F>(key, shift as nat, w as nat),
            nb == pow2(w as nat),
            counted(s@, dg, nb, i as int, tab@),
            forall|k: int| 0 <= k < i ==> agree_outside((#[trigger] s@[k]).chunks()[c], k0, xm),
            forall|k: int| 0 <= k < i ==> agree_outside(image_of(key, #[trigger] s@[k]), u0, um),
            ks == words_at(s@, c),
            k0 == ks[0],
            xm == varying(ks, i as int),
            us == images(key, s@),
            u0 == us[0],
            um == varying(us, i as int),
            !out <==> forall|k: int| 0 <= k < i ==> in_plan(*p, T::Key::BITS, (#[trigger] s@[k]).chunks()[c]),
            tab@.len() == old(tab)@.len(),
        decreases n - i,
    {
        let e: T = s[i];
        let k: u64 = T::radix_key(e, chunk).to_u64();
        let u: u64 = key.raw(k);
        let b: usize = digit_at(u, shift, w);
        proof {
            e.chunks_fit();
            assert(b as int == dg(s@[i as int]));
            lemma_count_step(s@, dg, nb, i as int, tab@, tab@.update(b as int, (tab@[b as int] + 1) as u32));
            lemma_agree_or(u, u0, um, 0);
            lemma_agree_or(k, k0, xm, 0);
            assert(ks[i as int] == k);
            assert(us[i as int] == u);
            assert forall|j: int| 0 <= j < i implies agree_outside(image_of(key, #[trigger] s@[j]), u0, um | (u ^ u0)) by {
                lemma_agree_or(image_of(key, s@[j]), u0, um, u ^ u0);
            }
            assert forall|j: int| 0 <= j < i implies agree_outside((#[trigger] s@[j]).chunks()[c], k0, xm | (k ^ k0)) by {
                lemma_agree_or(s@[j].chunks()[c], k0, xm, k ^ k0);
            }
        }
        let cnt: u32 = tab[b];
        tab[b] = cnt + 1;
        hooks.on_read(s, i);
        note_key(e, chunk, hooks);
        hooks.on_table(&*tab, b, 4, true, true);
        xm = xm | (k ^ k0);
        um = um | (u ^ u0);
        let ghost was = out;
        if sub {
            if k < p.base {
                out = true;
            } else if p.bits < 64 {
                proof {
                    lemma_one_shl(p.bits);
                }
                if k - p.base >= 1u64 << p.bits {
                    out = true;
                }
            } else {
                proof {
                    lemma_u64_lt_pow2_64((k - p.base) as u64);
                }
            }
        }
        proof {
            assert(s@[i as int].chunks()[c] == k);
            assert(out == (was || !in_plan(*p, T::Key::BITS, s@[i as int].chunks()[c])));
        }
        i += 1;
    }
    proof {
        assert forall|i: int, j: int| 0 <= i < s@.len() && 0 <= j < s@.len() implies agree_outside(image_of(key, #[trigger] s@[i]), image_of(key, #[trigger] s@[j]), um) by {
            lemma_agree_through(image_of(key, s@[i]), image_of(key, s@[j]), u0, um);
        }
        assert forall|i: int, j: int| 0 <= i < s@.len() && 0 <= j < s@.len() implies agree_outside((#[trigger] s@[i]).chunks()[c], (#[trigger] s@[j]).chunks()[c], xm) by {
            lemma_agree_through(s@[i].chunks()[c], s@[j].chunks()[c], k0, xm);
        }
    }
    let fits = !out && xm & !p.assumed == 0;
    proof {
        if fits {
            lemma_raw_wider(s@, c, xm, p.assumed);
        }
        if raw_within(s@, c, p.assumed) {
            assert forall|k: int| 0 <= k < n implies agree_outside(#[trigger] ks[k], ks[0], p.assumed) by {
                assert(agree_outside(s@[k].chunks()[c], s@[0].chunks()[c], p.assumed));
            }
            lemma_varying_within(ks, n as int, p.assumed);
        }
    }
    Counted { fits, raw: xm, image: um }
}

/// What differs in bits of a mask differs in bits of a mask around it.
pub proof fn lemma_raw_wider<T: Elem>(s: Seq<T>, c: int, mask: u64, around: u64)
    requires
        raw_within(s, c, mask),
        mask & !around == 0,
    ensures
        raw_within(s, c, around),
{
    assert forall|i: int, j: int| 0 <= i < s.len() && 0 <= j < s.len() implies agree_outside((#[trigger] s[i]).chunks()[c], (#[trigger] s[j]).chunks()[c], around) by {
        let (x, y) = (s[i].chunks()[c], s[j].chunks()[c]);
        assert((x ^ y) & !around == 0) by (bit_vector)
            requires
                (x ^ y) & !mask == 0,
                mask & !around == 0,
        ;
    }
}

/// What radix_exec did.
pub struct Ran {
    /// The part is sorted; otherwise nothing moved.
    pub sorted: bool,
    /// The varying bits of the keys, where the plan failed.
    pub mask: u64,
    /// The sorted part is in the source.
    pub in_src: bool,
}

/// Where the plan holds, the elements are ready for its key function.
pub proof fn lemma_plan_ready<T: Elem, F: KeyFn<T>>(p: RadixPlan, key: F, s: Seq<T>, c: int)
    requires
        chunk_ready(s, c),
        key.at() == c,
        serves::<T, F>(p, T::Key::BITS, key),
        raw_within(s, c, p.assumed),
        forall|i: int| 0 <= i < s.len() ==> in_plan(p, T::Key::BITS, (#[trigger] s[i]).chunks()[c]),
    ensures
        radix_ready(key, s),
        keys_within(key, s, low_mask(p.bits)),
{
    let kb = T::Key::BITS;
    assert forall|i: int, j: int| 0 <= i < s.len() && 0 <= j < s.len() implies (image_of(key, #[trigger] s[i]) <= image_of(key, #[trigger] s[j])) == (s[i].chunks()[c] <= s[j].chunks()[c])
        && agree_outside(image_of(key, s[i]), image_of(key, s[j]), low_mask(p.bits)) by {
        let (x, y) = (s[i].chunks()[c], s[j].chunks()[c]);
        assert(in_plan(p, kb, x) && in_plan(p, kb, y) && agree_outside(x, y, p.assumed));
        assert((key.image(x) <= key.image(y)) == (x <= y));
    }
}

/// Sorted by the key function, sorted by the chunk.
pub proof fn lemma_part_chunk<T: Elem, F: KeyFn<T>>(key: F, a: Seq<T>, b: Seq<T>)
    requires
        radix_ready(key, a),
        part_sorted(key, a, b),
    ensures
        chunk_sorted(key.at(), a, b),
{
    lemma_ready_permutation(key, a, b);
    let c = key.at();
    assert forall|i: int, j: int| 0 <= i <= j < b.len() implies by_key(chunk_key::<T>(c))(#[trigger] b[i], #[trigger] b[j]) by {
        assert(by_key(whole_of::<T, F>(key))(b[i], b[j]));
    }
}

/// Count tables of so many entries are enough for digits of `width` bits.
pub open spec fn table_room(width: u32) -> int {
    let levels = (MAX_LEVELS + 2) * LEVEL_TABLE;
    let twice = 2 * pow2(width as nat);
    if twice > levels {
        twice as int
    } else {
        levels
    }
}

/// Wider digits need no smaller tables.
pub proof fn lemma_table_room(v: u32, w: u32)
    requires
        v <= w,
    ensures
        (MAX_LEVELS + 2) * LEVEL_TABLE <= table_room(v) <= table_room(w),
        2 * pow2(v as nat) <= table_room(v),
{
    lemma_pow2_le(v as nat, w as nat);
}

/// Some plan for `bits` bits in digits of at most `width`.
pub open spec fn some_plan(bits: u32, width: u32) -> DigitPlan {
    choose|d: DigitPlan| made(d, bits as int, width as int)
}

/// The digits of the plan that vary under `mask`.
pub open spec fn live_digits(bits: u32, width: u32, mask: u64) -> Seq<int> {
    live_to(some_plan(bits, width), mask, some_plan(bits, width).passes as int)
}

/// The bits of a plan's keys that vary, counted from the highest that does.
pub open spec fn domain_bits(p: RadixPlan, domain: u64) -> int {
    let dm = domain & low_mask(p.bits);
    if dm != 0 {
        log2_of(dm as int) + 1
    } else {
        p.bits as int
    }
}

/// A part of `n` elements is sorted by top-digit levels.
pub open spec fn by_levels<T>(n: nat, p: RadixPlan, domain: u64, caches: CacheSizes) -> bool {
    &&& live_digits(p.bits, p.width, domain).len() >= 2
    &&& byte_count::<T>(n) >= level_bytes(caches)
    &&& domain_bits(p, domain) > 8
}

/// No digit varies.
pub open spec fn nothing_to_do(p: RadixPlan, domain: u64) -> bool {
    p.exact && live_digits(p.bits, p.width, domain).len() == 0
}

/// The table entries of a plan: one table for one pass, two for more, and those of
/// all levels where there are levels.
#[verifier::opaque]
pub open spec fn exec_entries<T>(n: nat, p: RadixPlan, domain: u64, caches: CacheSizes) -> nat {
    let w = pow2(some_plan(p.bits, p.width).max_bits as nat);
    if nothing_to_do(p, domain) {
        0
    } else if by_levels::<T>(n, p, domain, caches) {
        ((MAX_LEVELS + 2) * LEVEL_TABLE) as nat
    } else if live_digits(p.bits, p.width, domain).len() < 2 {
        w
    } else {
        w * 2
    }
}

/// A plan that was made from a sample fails.
pub open spec fn plan_fails<T: Elem>(p: RadixPlan, a: Seq<T>, c: int) -> bool {
    !p.exact && !plan_holds(p, a, c)
}

/// The record of sorting by top-digit levels.
#[verifier::opaque]
pub open spec fn levels_tally<T: Elem, F: KeyFn<T>, H: Hooks>(t: H::Tally, a: Seq<T>, p: RadixPlan, key: F, bits: int, to_src: bool, free: bool, caches: CacheSizes) -> H::Tally {
    let n = a.len() as int;
    let w = level_width(byte_count::<T>(a.len()), bits, caches);
    let shift = bits - w;
    let size = pow2(w as nat) as usize;
    let counted = count_tally::<T, H>(t, a, key.at(), size, true, n);
    if plan_fails(p, a, key.at()) {
        counted
    } else {
        let spread = scatter_tally::<T, H>(H::after(counted, Note::Count(Stat::RadixPasses, 1)), a, key.at(), size, false, 0, n);
        if shift == 0 {
            moved_tally::<H>(spread, n, false, to_src, free)
        } else {
            buckets_tally::<T, F, H>(spread, a, key, digit_of(key, shift as nat, w as nat), level_low(key, a, shift), free || to_src, 0, caches, pow2(w as nat) as int)
        }
    }
}

/// What sorting by top-digit levels leaves.
#[verifier::opaque]
pub open spec fn levels_out<T: Elem, F: KeyFn<T>>(a: Seq<T>, key: F, bits: int, caches: CacheSizes) -> Seq<T> {
    let w = level_width(byte_count::<T>(a.len()), bits, caches);
    let shift = bits - w;
    if shift == 0 {
        stably(by_key(low_of(key, w as nat)), a)
    } else {
        buckets_out(a, key, digit_of(key, shift as nat, w as nat), level_low(key, a, shift), 0, caches, pow2(w as nat) as int)
    }
}

/// The record of sorting by a plan whose keys vary in the bits of `domain`.
#[verifier::opaque]
pub open spec fn exec_tally<T: Elem, F: KeyFn<T>, H: Hooks>(t: H::Tally, a: Seq<T>, p: RadixPlan, key: F, domain: u64, to_src: bool, free: bool, caches: CacheSizes) -> H::Tally {
    let plan = some_plan(p.bits, p.width);
    let order = live_digits(p.bits, p.width, domain);
    let n = a.len() as int;
    if nothing_to_do(p, domain) {
        moved_tally::<H>(t, n, true, to_src, free)
    } else if by_levels::<T>(a.len(), p, domain, caches) {
        levels_tally::<T, F, H>(t, a, p, key, domain_bits(p, domain), to_src, free, caches)
    } else {
        let skipped = H::after(t, Note::Count(Stat::PassesSkipped, (plan.passes - order.len()) as u64));
        let counted = count_tally::<T, H>(skipped, a, key.at(), pow2(plan.max_bits as nat) as usize, !p.exact, n);
        if plan_fails(p, a, key.at()) {
            counted
        } else {
            moved_tally::<H>(passes_tally::<T, F, H>(counted, a, key, plan, order, order.len() as int), n, order.len() % 2 == 0, to_src, free)
        }
    }
}

/// What sorting by a plan leaves.
#[verifier::opaque]
pub open spec fn exec_out<T: Elem, F: KeyFn<T>>(a: Seq<T>, p: RadixPlan, key: F, domain: u64, caches: CacheSizes) -> Seq<T> {
    if !nothing_to_do(p, domain) && by_levels::<T>(a.len(), p, domain, caches) {
        levels_out(a, key, domain_bits(p, domain), caches)
    } else {
        stably(by_key(low_of(key, p.bits as nat)), a)
    }
}

/// The tables were asked for as a plan that needs `entries` entries does.
pub open spec fn tables_asked<M: Alloc, H: Hooks>(before: Tools<M, H>, now: Tools<M, H>, entries: nat, ok: bool) -> bool {
    if before.tables@.len() >= entries {
        ok && now.mem == before.mem && now.tables@.len() == before.tables@.len()
    } else {
        &&& now.mem.asked() == asks_for::<u32>(before.mem.asked(), entries)
        &&& ok ==> now.tables@.len() == entries && !too_large::<u32>(entries)
    }
}

/// Tables were asked for that are larger than those at hand and no larger than
/// `room` entries.
#[verifier::opaque]
pub open spec fn larger_asked<M: Alloc, H: Hooks>(before: Tools<M, H>, now: Tools<M, H>, room: int) -> bool {
    exists|entries: nat| before.tables@.len() < entries <= room && now.mem.asked() == #[trigger] asks_for::<u32>(before.mem.asked(), entries)
}

proof fn lemma_larger_asked<M: Alloc, H: Hooks>(before: Tools<M, H>, now: Tools<M, H>, room: int, entries: nat)
    requires
        before.tables@.len() < entries <= room,
        now.mem.asked() == asks_for::<u32>(before.mem.asked(), entries),
    ensures
        larger_asked(before, now, room),
{
    reveal(larger_asked);
}

/// What a plan comes to, by the digits that were made.
proof fn lemma_exec<T: Elem, F: KeyFn<T>, H: Hooks>(t: H::Tally, a: Seq<T>, key: F, p: RadixPlan, domain: u64, plan: DigitPlan, order: Seq<int>, to_src: bool, free: bool, caches: CacheSizes)
    requires
        made(plan, p.bits as int, p.width as int),
        p.bits > 0,
        p.width > 0,
        order == live_to(plan, domain, plan.passes as int),
    ensures
        order == live_digits(p.bits, p.width, domain),
        !nothing_to_do(p, domain) && !by_levels::<T>(a.len(), p, domain, caches) ==> {
            &&& exec_entries::<T>(a.len(), p, domain, caches) == if order.len() < 2 {
                pow2(plan.max_bits as nat)
            } else {
                pow2(plan.max_bits as nat) * 2
            }
            &&& exec_tally::<T, F, H>(t, a, p, key, domain, to_src, free, caches) == {
                let skipped = H::after(t, Note::Count(Stat::PassesSkipped, (plan.passes - order.len()) as u64));
                let counted = count_tally::<T, H>(skipped, a, key.at(), pow2(plan.max_bits as nat) as usize, !p.exact, a.len() as int);
                if plan_fails(p, a, key.at()) {
                    counted
                } else {
                    moved_tally::<H>(passes_tally::<T, F, H>(counted, a, key, plan, order, order.len() as int), a.len() as int, order.len() % 2 == 0, to_src, free)
                }
            }
        },
{
    reveal(exec_entries);
    reveal(exec_tally);
    let d = some_plan(p.bits, p.width);
    lemma_made_alike(plan, d, p.bits as int, p.width as int);
    assert(plan.passes > 0) by {
        assert((p.bits + p.width - 1) / p.width as int >= 1) by (nonlinear_arith)
            requires
                p.bits > 0,
                p.width > 0,
        ;
    }
    lemma_live_alike(plan, d, domain, plan.passes as int);
    let skipped = H::after(t, Note::Count(Stat::PassesSkipped, (plan.passes - order.len()) as u64));
    let counted = count_tally::<T, H>(skipped, a, key.at(), pow2(plan.max_bits as nat) as usize, !p.exact, a.len() as int);
    lemma_passes_alike::<T, F, H>(counted, a, key, plan, d, order, order.len() as int);
}

/// What was run on a part.
pub open spec fn ran_as<T: Elem>(p: RadixPlan, c: int, a: Seq<T>, src: Seq<T>, dst: Seq<T>, before: Seq<T>, e: Ran, result_in_src: bool, free: bool, out: Seq<T>) -> bool {
    &&& e.sorted && e.in_src ==> chunk_sorted(c, a, src) && src == out
    &&& e.sorted && !e.in_src ==> chunk_sorted(c, a, dst) && dst == out
    &&& e.sorted && !free ==> e.in_src == result_in_src
    &&& e.sorted <==> plan_holds(p, a, c)
    &&& !e.sorted ==> !p.exact && src == a && dst == before && raw_within(a, c, e.mask)
    &&& !e.sorted ==> e.mask == varying(words_at(a, c), a.len() as int)
}

/// The part of [`radix_exec`] that sorts by top-digit levels: a scatter by the top
/// digit, then the buckets. `bits` bits of the keys vary, those of `dm`.
#[verifier::rlimit(60)]
fn exec_levels<T: Elem, F: KeyFn<T>, M: Alloc, H: Hooks>(
    src: &mut [T],
    dst: &mut [T],
    chunk: u64,
    p: &RadixPlan,
    key: F,
    dm: u64,
    bits: u32,
    result_in_src: bool,
    tools: &mut Tools<M, H>,
    free: bool,
) -> (r: Result<Ran, AllocError>)
    requires
        old(tools).base() >= 0,
        0 < old(src)@.len() <= 0xFFFF_FFFF,
        old(dst)@.len() == old(src)@.len(),
        chunk_ready(old(src)@, chunk as int),
        p.wf(T::Key::BITS),
        p.bits > 0,
        key.at() == chunk,
        serves::<T, F>(*p, T::Key::BITS, key),
        p.exact ==> plan_holds(*p, old(src)@, chunk as int) && keys_within(key, old(src)@, dm),
        !p.exact ==> dm == low_mask(p.bits),
        dm < pow2(bits as nat),
        8 < bits <= 64,
    ensures
        keeps_record(old(tools).hooks, final(tools).hooks),
        r is Err ==> larger_asked(*old(tools), *final(tools), table_room(p.width)),
        asks_more(old(tools).mem.asked(), final(tools).mem.asked()),
        tables_asked(*old(tools), *final(tools), ((MAX_LEVELS + 2) * LEVEL_TABLE) as nat, r is Ok),
        r is Ok ==> track(*final(tools)) == retold(
            tables_for(track(*old(tools)), ((MAX_LEVELS + 2) * LEVEL_TABLE) as nat),
            levels_tally::<T, F, H>(old(tools).hooks.tally(), old(src)@, *p, key, bits as int, result_in_src, free, old(tools).machine.caches),
        ),
        r matches Ok(e) ==> ran_as(
            *p,
            chunk as int,
            old(src)@,
            final(src)@,
            final(dst)@,
            old(dst)@,
            e,
            result_in_src,
            free,
            levels_out(old(src)@, key, bits as int, old(tools).machine.caches),
        ),
        old(tools).tables@.len() >= table_room(p.width) ==> r is Ok && final(tools).mem == old(tools).mem && final(tools).tables@.len() == old(tools).tables@.len(),
        r is Ok ==> final(tools).mem.refusals() == old(tools).mem.refusals(),
        r is Err ==> final(src)@ == old(src)@ && final(dst)@ == old(dst)@ && final(tools).mem.refusals() > old(tools).mem.refusals(),
        final(tools).base() == old(tools).base(),
        final(src)@.len() == old(src)@.len(),
        final(dst)@.len() == old(dst)@.len(),
        final(tools).machine == old(tools).machine,
{
    let n: usize = src.len();
    let ghost a = src@;
    let ghost c = chunk as int;
    let caches = tools.machine.caches;
    let bytes: usize = byte_size(n, core::mem::size_of::<T>());
    assert(bytes == byte_count::<T>(a.len()));
    proof {
        reveal(levels_tally);
        reveal(levels_out);
        lemma_table_room(0, p.width);
        if p.exact {
            lemma_plan_ready(*p, key, a, c);
        }
    }
    let w: u32 = msd_width(bytes, bits, caches);
    let shift: u32 = bits - w;
    let b_count: usize = table_size(w);
    proof {
        vstd::arithmetic::power2::lemma2_to64();
        lemma_pow2_le(w as nat, 13);
    }
    let need: usize = (MAX_LEVELS + 2) * LEVEL_TABLE;
    match tools.hist(need) {
        Ok(_) => {},
        Err(e) => {
            proof {
                lemma_larger_asked(*old(tools), *tools, table_room(p.width), need as nat);
            }
            return Err(e);
        },
    }
    let (tab, rest) = tools.tables.split_at_mut(LEVEL_TABLE);
    let found: Counted = count_checked(src, chunk, p, key, shift, w, tab, b_count, true, &mut tools.hooks);
    if !p.exact {
        if !found.fits {
            proof {
                lemma_record::<H>(tools.hooks.tally(), levels_tally::<T, F, H>(old(tools).hooks.tally(), a, *p, key, bits as int, result_in_src, free, caches));
            }
            return Ok(Ran { sorted: false, mask: found.raw, in_src: true });
        }
        proof {
            lemma_plan_ready(*p, key, a, c);
        }
    }
    let ghost dg = digit_of::<T, F>(key, shift as nat, w as nat);
    tools.hooks.stat(Stat::RadixPasses, 1);
    scatter_pass(src, dst, key, shift, w, tab, rest, false, 0, 0, 0, &mut tools.hooks);
    if shift == 0 {
        proof {
            lemma_low_zero(key, a);
            lemma_pass_extends(key, 0, w as nat, a, a, dst@);
            lemma_low_sorts(key, a, dst@, dm, w as nat);
            lemma_part_chunk(key, a, dst@);
            lemma_by_key_total(low_of::<T, F>(key, w as nat));
            lemma_stably(by_key(low_of::<T, F>(key, w as nat)), a, dst@);
        }
        if !free && result_in_src {
            copy_all(dst, src);
            note_copies(&*dst, 0, &*src, 0, n, &mut tools.hooks);
        }
        proof {
            lemma_record::<H>(tools.hooks.tally(), levels_tally::<T, F, H>(old(tools).hooks.tally(), a, *p, key, bits as int, result_in_src, free, caches));
        }
        return Ok(Ran { sorted: true, mask: 0, in_src: !free && result_in_src });
    }
    proof {
        lemma_one_shl(shift);
        lemma_pow2_fits(shift as nat);
    }
    let lm: u64 = (1u64 << shift) - 1;
    let low: u64 = found.image & lm;
    assert(low == level_low(key, a, shift as int));
    proof {
        lemma_scatter_ready(key, a, dm, found.image, shift, w, lm);
    }
    let rs = free || result_in_src;
    sort_buckets(src, dst, key, low, rs, tab, b_count, rest, 0, caches, &mut tools.hooks, Ghost(a), Ghost(dg));
    proof {
        lemma_part_chunk(
            key,
            a,
            if rs {
                src@
            } else {
                dst@
            },
        );
        lemma_record::<H>(tools.hooks.tally(), levels_tally::<T, F, H>(old(tools).hooks.tally(), a, *p, key, bits as int, result_in_src, free, caches));
    }
    Ok(Ran { sorted: true, mask: 0, in_src: rs })
}

/// Radix of `src` with `dst` as the other buffer under a plan, with the result
/// in `src` or `dst` as requested. Builds the histogram of the first pass (the
/// top digit when the part takes a level, the lowest live digit otherwise),
/// verifying a speculative plan on the way: if a key shows that the sample
/// misjudged the keys, nothing is moved and the exact mask for the retry is
/// handed back. With `free` the result may stay in either buffer.
#[verifier::rlimit(100)]
pub fn radix_exec<T: Elem, F: KeyFn<T>, M: Alloc, H: Hooks>(
    src: &mut [T],
    dst: &mut [T],
    chunk: u64,
    p: &RadixPlan,
    key: F,
    domain_mask: u64,
    result_in_src: bool,
    tools: &mut Tools<M, H>,
    free: bool,
) -> (r: Result<Ran, AllocError>)
    requires
        old(tools).base() >= 0,
        0 < old(src)@.len() <= 0xFFFF_FFFF,
        old(dst)@.len() == old(src)@.len(),
        chunk_ready(old(src)@, chunk as int),
        p.wf(T::Key::BITS),
        p.bits > 0,
        key.at() == chunk,
        serves::<T, F>(*p, T::Key::BITS, key),
        p.exact ==> p.kind !is Sub && raw_within(old(src)@, chunk as int, p.assumed) && keys_within(key, old(src)@, domain_mask),
        !p.exact ==> domain_mask == u64::MAX,
    ensures
        keeps_record(old(tools).hooks, final(tools).hooks),
        r is Err ==> larger_asked(*old(tools), *final(tools), table_room(p.width)),
        asks_more(old(tools).mem.asked(), final(tools).mem.asked()),
        tables_asked(*old(tools), *final(tools), exec_entries::<T>(old(src)@.len(), *p, domain_mask, old(tools).machine.caches), r is Ok),
        r is Ok ==> track(*final(tools)) == retold(
            tables_for(track(*old(tools)), exec_entries::<T>(old(src)@.len(), *p, domain_mask, old(tools).machine.caches)),
            exec_tally::<T, F, H>(old(tools).hooks.tally(), old(src)@, *p, key, domain_mask, result_in_src, free, old(tools).machine.caches),
        ),
        r matches Ok(e) ==> ran_as(
            *p,
            chunk as int,
            old(src)@,
            final(src)@,
            final(dst)@,
            old(dst)@,
            e,
            result_in_src,
            free,
            exec_out(old(src)@, *p, key, domain_mask, old(tools).machine.caches),
        ),
        old(tools).tables@.len() >= table_room(p.width) ==> r is Ok && final(tools).mem == old(tools).mem && final(tools).tables@.len() == old(tools).tables@.len(),
        p.exact && domain_mask as int % pow2(p.bits as nat) as int == 0 ==> r is Ok && final(tools).mem == old(tools).mem,
        r is Ok ==> final(tools).mem.refusals() == old(tools).mem.refusals(),
        r is Err ==> final(src)@ == old(src)@ && final(dst)@ == old(dst)@ && final(tools).mem.refusals() > old(tools).mem.refusals(),
        final(tools).base() == old(tools).base(),
        final(src)@.len() == old(src)@.len(),
        final(dst)@.len() == old(dst)@.len(),
        final(tools).machine == old(tools).machine,
{
    let n: usize = src.len();
    let ghost a = src@;
    let ghost c = chunk as int;
    let ghost kb = T::Key::BITS;
    proof {
        src@[0].chunks_fit();
    }
    let plan = make_plan(p.bits, p.width);
    let mut order: [usize; 8] = [0usize; 8];
    let live: usize = live_passes(&plan, domain_mask, &mut order);
    let caches = tools.machine.caches;
    proof {
        if domain_mask as int % pow2(p.bits as nat) as int == 0 {
            lemma_none_live(plan, p.bits as nat, domain_mask, order@, live as int);
        }
        lemma_table_room(plan.max_bits, p.width);
        lemma_exec::<T, F, H>(tools.hooks.tally(), a, key, *p, domain_mask, plan, listed(order@, live as int), result_in_src, free, caches);
    }
    let ghost told = exec_tally::<T, F, H>(tools.hooks.tally(), a, *p, key, domain_mask, result_in_src, free, caches);
    proof {
        assert forall|i: int| 0 <= i < a.len() implies (#[trigger] a[i]).chunks()[c] <= key_max(kb) by {
            a[i].chunks_fit();
        }
        if p.exact {
            assert forall|i: int| 0 <= i < a.len() implies in_plan(*p, kb, (#[trigger] a[i]).chunks()[c]) by {}
            lemma_plan_ready(*p, key, a, c);
        }
    }
    let whole: u64 = if p.bits >= 64 {
        u64::MAX
    } else {
        proof {
            lemma_one_shl(p.bits);
            lemma_pow2_fits(p.bits as nat);
        }
        (1u64 << p.bits) - 1
    };
    let dm: u64 = domain_mask & whole;
    proof {
        assert(dm <= whole && u64::MAX & whole == whole) by (bit_vector)
            requires
                dm == domain_mask & whole,
        ;
        lemma_u64_lt_pow2_64(dm);
        assert(dm < pow2(p.bits as nat));
        dm.word_fits();
        if p.exact {
            lemma_within_both(key, a, domain_mask, whole);
        }
    }
    if p.exact && live == 0 {
        proof {
            lemma_all_dead(key, plan, p.bits as nat, domain_mask, order@, a);
            lemma_low_sorts(key, a, a, dm, p.bits as nat);
            lemma_part_chunk(key, a, a);
        }
        if !free && !result_in_src {
            copy_all(src, dst);
            note_copies(&*src, 0, &*dst, 0, n, &mut tools.hooks);
        }
        proof {
            reveal(exec_entries);
            reveal(exec_tally);
            reveal(exec_out);
            lemma_by_key_total(low_of::<T, F>(key, p.bits as nat));
            lemma_stably(by_key(low_of::<T, F>(key, p.bits as nat)), a, a);
            lemma_record::<H>(tools.hooks.tally(), told);
        }
        return Ok(Ran { sorted: true, mask: 0, in_src: free || result_in_src });
    }
    let bits_eff: u32 = if dm != 0 {
        highest_bit(dm) + 1
    } else {
        p.bits
    };
    let bytes: usize = byte_size(n, core::mem::size_of::<T>());
    assert(bytes == byte_count::<T>(a.len()));
    assert(dm == domain_mask & low_mask(p.bits));
    assert(bits_eff == domain_bits(*p, domain_mask));
    if live >= 2 && bytes >= msd_min_bytes(caches) && bits_eff > 8 {
        proof {
            reveal(exec_entries);
            reveal(exec_tally);
            reveal(exec_out);
        }
        return exec_levels(src, dst, chunk, p, key, dm, bits_eff, result_in_src, tools, free);
    }
    let width: usize = plan.width();
    let need: usize = if live < 2 {
        width
    } else {
        match width.checked_mul(2) {
            Some(x) => x,
            None => {
                proof {
                    broadcast use vstd::layout::layout_of_primitives;

                    assert(tools.tables.len() == tools.tables@.len());
                    let w = width as int;
                    assert(w * 2 * 4 > usize::MAX) by (nonlinear_arith)
                        requires
                            w * 2 > usize::MAX,
                    ;
                }
                tools.mem.oversize(width, 2, 1);
                proof {
                    lemma_larger_asked(*old(tools), *tools, table_room(p.width), (width * 2) as nat);
                }
                return Err(AllocError);
            },
        }
    };
    match tools.hist(need) {
        Ok(_) => {},
        Err(e) => {
            proof {
                lemma_larger_asked(*old(tools), *tools, table_room(p.width), need as nat);
            }
            return Err(e);
        },
    }
    proof {
        if !p.exact {
            lemma_full_mask_live(plan, p.bits as nat, order@, live as int);
        }
    }
    tools.hooks.stat(Stat::PassesSkipped, (plan.passes - live) as u64);
    let (tab, rest) = tools.tables.split_at_mut(width);
    let p0: usize = order[0];
    proof {
        lemma_pow2_le(plan.bits[p0 as int] as nat, plan.max_bits as nat);
    }
    let found: Counted = count_checked(src, chunk, p, key, plan.shift[p0], plan.bits[p0], tab, width, !p.exact, &mut tools.hooks);
    if !p.exact {
        if !found.fits {
            proof {
                lemma_record::<H>(tools.hooks.tally(), told);
            }
            return Ok(Ran { sorted: false, mask: found.raw, in_src: true });
        }
        proof {
            lemma_plan_ready(*p, key, a, c);
            assert(dm == low_mask(p.bits));
            lemma_any_within(key, a);
        }
    }
    proof {
        assert(order@.take(live as int).len() == live);
    }
    let in_src = radix_passes(src, dst, &plan, key, &order, live, tab, rest, result_in_src, free, &mut tools.hooks, Ghost(p.bits as nat), Ghost(domain_mask));
    proof {
        let out = if in_src {
            src@
        } else {
            dst@
        };
        lemma_low_sorts(key, a, out, dm, p.bits as nat);
        lemma_part_chunk(key, a, out);
        reveal(exec_out);
        lemma_by_key_total(low_of::<T, F>(key, p.bits as nat));
        lemma_stably(by_key(low_of::<T, F>(key, p.bits as nat)), a, out);
        lemma_record::<H>(tools.hooks.tally(), told);
    }
    Ok(Ran { sorted: true, mask: 0, in_src })
}

/// What differs in bits of two masks differs in bits of both.
pub proof fn lemma_within_both<T: Elem, F: KeyFn<T>>(key: F, s: Seq<T>, m1: u64, m2: u64)
    requires
        keys_within(key, s, m1),
        keys_within(key, s, m2),
    ensures
        keys_within(key, s, m1 & m2),
{
    assert forall|i: int, j: int| 0 <= i < s.len() && 0 <= j < s.len() implies agree_outside(image_of(key, #[trigger] s[i]), image_of(key, #[trigger] s[j]), m1 & m2) by {
        let (x, y) = (image_of(key, s[i]), image_of(key, s[j]));
        assert((x ^ y) & !(m1 & m2) == 0) by (bit_vector)
            requires
                (x ^ y) & !m1 == 0,
                (x ^ y) & !m2 == 0,
        ;
    }
}

pub proof fn lemma_any_within<T: Elem, F: KeyFn<T>>(key: F, s: Seq<T>)
    ensures
        keys_within(key, s, u64::MAX),
{
    assert forall|i: int, j: int| 0 <= i < s.len() && 0 <= j < s.len() implies agree_outside(image_of(key, #[trigger] s[i]), image_of(key, #[trigger] s[j]), u64::MAX) by {
        let d = image_of(key, s[i]) ^ image_of(key, s[j]);
        assert(d & !u64::MAX == 0) by (bit_vector);
    }
}

/// The bits in which the keys of a plan vary, where the raw keys vary in the bits
/// of `est`: all of them where the plan was made from a sample.
pub open spec fn plan_domain(p: RadixPlan, est: u64) -> u64 {
    if !p.exact {
        u64::MAX
    } else {
        match p.kind {
            PlanKind::Shift => if p.low < 64 {
                est >> p.low
            } else {
                u64::MAX
            },
            PlanKind::Pext => if p.bits < 64 {
                ((1u64 << p.bits) - 1) as u64
            } else {
                u64::MAX
            },
            PlanKind::Sub => u64::MAX,
            PlanKind::Full => est,
        }
    }
}

/// The record of running a plan.
pub open spec fn run_tally<T: Elem, H: Hooks>(t: H::Tally, a: Seq<T>, chunk: u64, p: RadixPlan, est: u64, to_src: bool, free: bool, caches: CacheSizes) -> H::Tally {
    let domain = plan_domain(p, est);
    match p.kind {
        PlanKind::Shift => exec_tally::<T, ShiftKey, H>(t, a, p, ShiftKey { chunk, low: p.low }, domain, to_src, free, caches),
        PlanKind::Pext => exec_tally::<T, PextKeySoft, H>(t, a, p, PextKeySoft { chunk, mask: p.pmask }, domain, to_src, free, caches),
        PlanKind::Sub => exec_tally::<T, SubKey, H>(t, a, p, SubKey { chunk, base: p.base }, domain, to_src, free, caches),
        PlanKind::Full => exec_tally::<T, FullKey, H>(t, a, p, FullKey { chunk }, domain, to_src, free, caches),
    }
}

/// Where running a plan leads.
pub open spec fn run_track<T: Elem, H: Hooks>(t: Track<H::Tally>, a: Seq<T>, chunk: u64, p: RadixPlan, est: u64, to_src: bool, free: bool, caches: CacheSizes) -> Track<H::Tally> {
    retold(tables_for(t, exec_entries::<T>(a.len(), p, plan_domain(p, est), caches)), run_tally::<T, H>(t.tally, a, chunk, p, est, to_src, free, caches))
}

/// What running a plan leaves.
pub open spec fn run_out<T: Elem>(a: Seq<T>, chunk: u64, p: RadixPlan, est: u64, caches: CacheSizes) -> Seq<T> {
    let domain = plan_domain(p, est);
    match p.kind {
        PlanKind::Shift => exec_out(a, p, ShiftKey { chunk, low: p.low }, domain, caches),
        PlanKind::Pext => exec_out(a, p, PextKeySoft { chunk, mask: p.pmask }, domain, caches),
        PlanKind::Sub => exec_out(a, p, SubKey { chunk, base: p.base }, domain, caches),
        PlanKind::Full => exec_out(a, p, FullKey { chunk }, domain, caches),
    }
}

/// Dispatch on the plan's key function. `est` is the varying-bit mask the plan
/// was made from; for an exact plan it tells which passes are trivial.
#[verifier::rlimit(40)]
pub fn radix_run<T: Elem, M: Alloc, H: Hooks>(src: &mut [T], dst: &mut [T], chunk: u64, p: &RadixPlan, est: u64, result_in_src: bool, tools: &mut Tools<M, H>, free: bool) -> (r: Result<Ran, AllocError>)
    requires
        old(tools).base() >= 0,
        0 < old(src)@.len() <= 0xFFFF_FFFF,
        old(dst)@.len() == old(src)@.len(),
        chunk_ready(old(src)@, chunk as int),
        p.wf(T::Key::BITS),
        p.bits > 0,
        p.exact ==> raw_within(old(src)@, chunk as int, p.assumed) && raw_within(old(src)@, chunk as int, est),
    ensures
        keeps_record(old(tools).hooks, final(tools).hooks),
        r is Err ==> larger_asked(*old(tools), *final(tools), table_room(p.width)),
        asks_more(old(tools).mem.asked(), final(tools).mem.asked()),
        tables_asked(*old(tools), *final(tools), exec_entries::<T>(old(src)@.len(), *p, plan_domain(*p, est), old(tools).machine.caches), r is Ok),
        r is Ok ==> track(*final(tools)) == run_track::<T, H>(track(*old(tools)), old(src)@, chunk, *p, est, result_in_src, free, old(tools).machine.caches),
        r matches Ok(e) ==> ran_as(
            *p,
            chunk as int,
            old(src)@,
            final(src)@,
            final(dst)@,
            old(dst)@,
            e,
            result_in_src,
            free,
            run_out(old(src)@, chunk, *p, est, old(tools).machine.caches),
        ),
        old(tools).tables@.len() >= table_room(p.width) ==> r is Ok && final(tools).mem == old(tools).mem && final(tools).tables@.len() == old(tools).tables@.len(),
        r is Ok ==> final(tools).mem.refusals() == old(tools).mem.refusals(),
        r is Err ==> final(src)@ == old(src)@ && final(dst)@ == old(dst)@ && final(tools).mem.refusals() > old(tools).mem.refusals(),
        final(tools).base() == old(tools).base(),
        final(src)@.len() == old(src)@.len(),
        final(dst)@.len() == old(dst)@.len(),
        final(tools).machine == old(tools).machine,
{
    let ghost c = chunk as int;
    let ghost kb = T::Key::BITS;
    proof {
        src@[0].chunks_fit();
    }
    match p.kind {
        PlanKind::Shift => {
            let key = ShiftKey { chunk, low: p.low };
            let domain: u64 = if p.exact {
                if p.low < 64 {
                    est >> p.low
                } else {
                    u64::MAX
                }
            } else {
                u64::MAX
            };
            proof {
                lemma_shift_serves::<T>(*p, kb, chunk);
                if p.exact {
                    let s = src@;
                    let low = p.low;
                    assert forall|i: int, j: int| 0 <= i < s.len() && 0 <= j < s.len() implies agree_outside(image_of(key, #[trigger] s[i]), image_of(key, #[trigger] s[j]), domain) by {
                        let (x, y) = (s[i].chunks()[c], s[j].chunks()[c]);
                        assert(agree_outside(x, y, est));
                        assert(((x >> low) ^ (y >> low)) & !(est >> low) == 0) by (bit_vector)
                            requires
                                (x ^ y) & !est == 0,
                                low < 64,
                        ;
                    }
                }
            }
            radix_exec(src, dst, chunk, p, key, domain, result_in_src, tools, free)
        },
        PlanKind::Pext => {
            let key = PextKeySoft { chunk, mask: p.pmask };
            let domain: u64 = if p.exact && p.bits < 64 {
                proof {
                    lemma_one_shl(p.bits);
                    lemma_pow2_fits(p.bits as nat);
                }
                (1u64 << p.bits) - 1
            } else {
                u64::MAX
            };
            proof {
                lemma_pext_serves::<T>(*p, kb, chunk);
                if p.exact {
                    assert forall|i: int| 0 <= i < src@.len() implies in_plan(*p, kb, (#[trigger] src@[i]).chunks()[c]) by {
                        src@[i].chunks_fit();
                    }
                    lemma_plan_ready(*p, key, src@, c);
                }
            }
            radix_exec(src, dst, chunk, p, key, domain, result_in_src, tools, free)
        },
        PlanKind::Sub => {
            let key = SubKey { chunk, base: p.base };
            proof {
                lemma_sub_serves::<T>(*p, kb, chunk);
            }
            radix_exec(src, dst, chunk, p, key, u64::MAX, result_in_src, tools, free)
        },
        PlanKind::Full => {
            let key = FullKey { chunk };
            let domain: u64 = if p.exact {
                est
            } else {
                u64::MAX
            };
            proof {
                lemma_full_serves::<T>(*p, kb, chunk);
            }
            radix_exec(src, dst, chunk, p, key, domain, result_in_src, tools, free)
        },
    }
}

} // verus!
