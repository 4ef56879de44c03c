//! What the routes decide, said of the elements, the keys and the machine.
use crate::algorithm::{
    buffer_for, first_route, lemma_rounds_step, range_end, retold_trail, round_end, rounds_end,
    sort_end, RoundEnd, Trail,
};
use crate::algorithm::dict::{dict_hash, dict_width};
use crate::algorithm::displaced::{displaced_allowed, few_displaced, pops_from, scan_ends};
use crate::algorithm::exec::varying;
use crate::algorithm::level::{bucket_size, level_bytes, level_width};
use crate::algorithm::monotone::reverse_tally;
use crate::algorithm::plan::{
    balanced_width, beats, digit_cap, largest_key, passes_for, pext_plan, shift_plan, sub_plan,
    PlanInput, RadixPlan,
};
use crate::algorithm::radix_route::{
    half_room, hinted_plan, is_split, pivot_of, sample_place, sample_size, tries_dict, tries_few,
    Hints,
};
use crate::algorithm::runs::few_runs_tally;
use crate::algorithm::scout::{
    ascents_to, commits_at, descent, descents_to, lemma_no_ascents, lemma_no_commit,
    lemma_no_descents, lemma_sorted_no_descents, runs_to, scout_tally, stops_at,
};
use crate::api::{kind_for, RecordKind};
use crate::bits::{lemma_halves, lemma_pow2_le, lemma_shr_is_div, ones, pext};
use crate::compsort::{lemma_same_to, run_end, same_to};
use crate::cpu::{CacheSizes, Machine};
use crate::key::slots::SLOT_MAX;
use crate::order::sorted;
use crate::radix::{made, DigitPlan};
use crate::record::{lemma_one_chunk, Key32, Key64, Rec32, Rec64};
use crate::record::string::StrRec;
use crate::shape::{none_bytes, width_sum, Part};
use crate::text::{bytes_le, text_chunks_order};
use crate::view::{
    elem_le, lemma_elem_le_total, lemma_keyed_le, lemma_log2, log2_of, low_bit, Elem, Hooks, Keyed,
    Note, RadixKey,
};
use vstd::arithmetic::power2::{
    lemma2_to64, lemma2_to64_rest, lemma_pow2_pos, lemma_pow2_unfold, pow2,
};
use vstd::prelude::*;

verus! {

// ---- records -------------------------------------------------------------------------------------

/// Records of fixed keys are ordered by their keys, whatever else they hold.
pub proof fn records_go_by_their_keys(a: Rec32, b: Rec32, c: Rec64, d: Rec64, e: Key32, f: Key32, g: Key64, h: Key64, x: Keyed, y: Keyed)
    ensures
        elem_le::<Rec32>()(a, b) == (a.key <= b.key),
        elem_le::<Rec64>()(c, d) == (c.key <= d.key),
        elem_le::<Key32>()(e, f) == (e.key <= f.key),
        elem_le::<Key64>()(g, h) == (g.key <= h.key),
        elem_le::<Keyed>()(x, y) == (x.key <= y.key),
{
    lemma_one_chunk((a.key + 0x8000_0000) as u64, (b.key + 0x8000_0000) as u64);
    lemma_one_chunk((c.key + 0x8000_0000_0000_0000) as u64, (d.key + 0x8000_0000_0000_0000) as u64);
    lemma_one_chunk((e.key + 0x8000_0000) as u64, (f.key + 0x8000_0000) as u64);
    lemma_one_chunk((g.key + 0x8000_0000_0000_0000) as u64, (h.key + 0x8000_0000_0000_0000) as u64);
    lemma_keyed_le(x, y);
}

/// Records of strings are ordered by the bytes, and those of a descending key the
/// other way round.
pub proof fn text_records_go_by_their_bytes<'a>(x: StrRec<'a, false>, y: StrRec<'a, false>, u: StrRec<'a, true>, v: StrRec<'a, true>)
    requires
        x.bytes@.len() <= SLOT_MAX,
        y.bytes@.len() <= SLOT_MAX,
        u.bytes@.len() <= SLOT_MAX,
        v.bytes@.len() <= SLOT_MAX,
    ensures
        elem_le::<StrRec<'a, false>>()(x, y) == bytes_le(x.bytes@, y.bytes@),
        elem_le::<StrRec<'a, true>>()(u, v) == bytes_le(v.bytes@, u.bytes@),
{
    text_chunks_order(x.bytes@, y.bytes@, false);
    text_chunks_order(u.bytes@, v.bytes@, true);
}

/// A key of fixed parts alone takes the narrowest record that holds all their bits, a
/// single string a record of its own in either direction, and any other key a composite
/// one.
pub proof fn records_are_as_narrow_as_can_be(parts: Seq<Part>, bits: u8, desc: bool)
    ensures
        none_bytes(parts) && width_sum(parts) <= 32 <==> kind_for(parts) == RecordKind::Fixed32,
        none_bytes(parts) && 32 < width_sum(parts) <= 64 <==> kind_for(parts) == RecordKind::Fixed64,
        none_bytes(parts) && width_sum(parts) > 64 && parts.len() > 1 ==> kind_for(parts) == RecordKind::Composite,
        !none_bytes(parts) && parts.len() > 1 ==> kind_for(parts) == RecordKind::Composite,
        kind_for(seq![Part { bytes: true, bits: 0, desc: false }]) == RecordKind::Text,
        kind_for(seq![Part { bytes: true, bits: 0, desc: true }]) == RecordKind::TextDesc,
        bits <= 32 ==> kind_for(seq![Part { bytes: false, bits, desc }]) == RecordKind::Fixed32,
        32 < bits <= 64 ==> kind_for(seq![Part { bytes: false, bits, desc }]) == RecordKind::Fixed64,
{
    reveal_with_fuel(width_sum, 2);
    let s = seq![Part { bytes: false, bits, desc }];
    assert(s.drop_last() =~= Seq::<Part>::empty());
    assert(s.last().bits == bits);
    assert(none_bytes(s));
    let t = seq![Part { bytes: true, bits: 0, desc: false }];
    let u = seq![Part { bytes: true, bits: 0, desc: true }];
    assert(t[0].bytes && u[0].bytes);
    assert(!none_bytes(t) && !none_bytes(u));
}

// ---- bits ----------------------------------------------------------------------------------------

/// The bits that a mask selects, one bit after the other: where its lowest bit is set
/// the lowest bit of the word is the lowest of the result, and where it is clear that
/// bit is left out. The set bits are counted in the same way.
pub proof fn selected_bits_one_after_the_other(k: u64, m: u64, l: u64, n: u64)
    requires
        l / 2 == k,
        n / 2 == m,
    ensures
        pext(k, 0) == 0,
        n % 2 == 1 ==> pext(l, n) == 2 * pext(k, m) + l % 2,
        n % 2 == 0 ==> pext(l, n) == pext(k, m),
        ones(0) == 0,
        ones(n) == ones(m) + n % 2,
{
    lemma_halves(l);
    lemma_halves(n);
    assert(l >> 1 == k && l & 1 == l % 2);
    assert(n >> 1 == m && n & 1 == n % 2);
}

proof fn lemma_log_bounds(n: int)
    requires
        n >= 1,
    ensures
        log2_of(n) >= 0,
        pow2(log2_of(n) as nat) <= n < pow2((log2_of(n) + 1) as nat),
    decreases n,
{
    lemma2_to64();
    if n > 1 {
        lemma_log_bounds(n / 2);
        let r = log2_of(n / 2) as nat;
        lemma_pow2_unfold(r + 1);
        lemma_pow2_unfold(r + 2);
    }
}

/// The logarithm is the place of the highest set bit.
pub proof fn logarithms_are_the_highest_bit(n: int, r: nat)
    requires
        n >= 1,
    ensures
        log2_of(n) == r <==> pow2(r) <= n < pow2(r + 1),
{
    lemma_log_bounds(n);
    if pow2(r) <= n < pow2(r + 1) {
        lemma_log2(n, r);
    }
}

proof fn lemma_low_bounds(k: int)
    requires
        k >= 1,
    ensures
        0 <= low_bit(k) <= log2_of(k),
        k % (pow2(low_bit(k) as nat) as int) == 0,
        k / (pow2(low_bit(k) as nat) as int) % 2 == 1,
    decreases k,
{
    lemma2_to64();
    if k % 2 == 0 {
        lemma_low_bounds(k / 2);
        let r = low_bit(k / 2) as nat;
        let p = pow2(r) as int;
        lemma_pow2_unfold(r + 1);
        lemma_pow2_pos(r);
        vstd::arithmetic::div_mod::lemma_div_denominator(k, 2, p);
        vstd::arithmetic::div_mod::lemma_fundamental_div_mod(k / 2, p);
        assert(k == (2 * p) * (k / 2 / p)) by (nonlinear_arith)
            requires
                k / 2 == p * (k / 2 / p) + 0,
                k == 2 * (k / 2),
        ;
        vstd::arithmetic::div_mod::lemma_mod_multiples_basic(k / 2 / p, 2 * p);
        assert((2 * p) * (k / 2 / p) == (k / 2 / p) * (2 * p)) by (nonlinear_arith);
    } else {
        lemma_log_bounds(k);
        assert(k / 1 == k);
    }
}

// ---- plans ---------------------------------------------------------------------------------------

/// A digit has about as many values as there are elements: not more, but for digits of
/// eight bits, and not less than half as many, but for the widest.
pub proof fn digits_are_as_wide_as_the_elements_are_many(m: int, max_digit: int)
    requires
        0 <= m,
        8 <= max_digit,
    ensures
        8 <= digit_cap(m, max_digit) <= max_digit,
        digit_cap(m, max_digit) > 8 ==> pow2(digit_cap(m, max_digit) as nat) <= m,
        digit_cap(m, max_digit) < max_digit ==> m < pow2((digit_cap(m, max_digit) + 1) as nat),
{
    lemma2_to64();
    if m >= 1 {
        lemma_log_bounds(m);
        if log2_of(m) < 8 {
            lemma_pow2_le((log2_of(m) + 1) as nat, 9);
        } else if log2_of(m) > max_digit {
            lemma_pow2_le(max_digit as nat, log2_of(m) as nat);
        }
    } else {
        lemma_pow2_pos(9);
    }
}

/// The digits of a plan are as few as the cap allows, and no wider than that takes: no
/// digits within the cap that are fewer cover the bits, and as many of a smaller width
/// do not.
pub proof fn digits_are_few_and_even(bits: int, m: int, max_digit: int) -> (passes: int)
    requires
        0 < bits,
        0 <= m,
        8 <= max_digit,
    ensures
        1 <= balanced_width(bits, m, max_digit) <= digit_cap(m, max_digit),
        passes >= 1,
        passes * balanced_width(bits, m, max_digit) >= bits,
        forall|k: int, c: int| 0 <= k && 1 <= c <= digit_cap(m, max_digit) && #[trigger] (k * c) >= bits ==> k >= passes,
        forall|c: int| 0 <= c < balanced_width(bits, m, max_digit) ==> #[trigger] (passes * c) < bits,
{
    digits_are_as_wide_as_the_elements_are_many(m, max_digit);
    let cap = digit_cap(m, max_digit);
    let w = balanced_width(bits, m, max_digit);
    if bits <= cap {
        assert forall|k: int, c: int| 0 <= k && 1 <= c <= cap && #[trigger] (k * c) >= bits implies k >= 1 by {
            if k == 0 {
                assert(k * c == 0) by (nonlinear_arith)
                    requires
                        k == 0,
                ;
            }
        }
        assert forall|c: int| 0 <= c < w implies #[trigger] (1 * c) < bits by {}
        1
    } else {
        let p = (bits + cap - 1) / cap;
        assert(p >= 2 && p * cap >= bits && (p - 1) * cap < bits) by (nonlinear_arith)
            requires
                p == (bits + cap - 1) / cap,
                8 <= cap < bits,
        ;
        assert(1 <= w <= cap && p * w >= bits && p * (w - 1) < bits) by (nonlinear_arith)
            requires
                w == (bits + p - 1) / p,
                p * cap >= bits,
                p >= 2,
                bits >= 8,
        ;
        assert forall|k: int, c: int| 0 <= k && 1 <= c <= cap && #[trigger] (k * c) >= bits implies k >= p by {
            if k < p {
                assert(k * c <= (p - 1) * cap) by (nonlinear_arith)
                    requires
                        0 <= k <= p - 1,
                        1 <= c <= cap,
                ;
            }
        }
        assert forall|c: int| 0 <= c < w implies #[trigger] (p * c) < bits by {
            assert(p * c <= p * (w - 1)) by (nonlinear_arith)
                requires
                    c <= w - 1,
                    p >= 2,
            ;
        }
        p
    }
}

/// The number of passes is the fewest digits of the width that cover the bits.
pub proof fn passes_cover_the_bits(bits: u32, width: u32)
    requires
        width >= 1,
    ensures
        passes_for(bits, width) * width >= bits,
        bits > 0 ==> (passes_for(bits, width) - 1) * width < bits,
        bits == 0 ==> passes_for(bits, width) == 0,
{
    let (b, w, p) = (bits as int, width as int, passes_for(bits, width));
    if b > 0 {
        assert(p * w >= b && (p - 1) * w < b) by (nonlinear_arith)
            requires
                p == (b + w - 1) / w,
                w >= 1,
                b > 0,
        ;
    }
}

/// A plan by a range of bits begins at the lowest bit that varies and ends with the
/// highest; one by the varying bits alone has as many as vary.
pub proof fn plans_span_the_varying_bits(i: PlanInput)
    requires
        i.est > 0,
    ensures
        shift_plan(i).bits >= 1,
        shift_plan(i).low + shift_plan(i).bits <= 64,
        i.est as int % (pow2(shift_plan(i).low as nat) as int) == 0,
        i.est as int / (pow2(shift_plan(i).low as nat) as int) % 2 == 1,
        pow2((shift_plan(i).low + shift_plan(i).bits - 1) as nat) <= i.est < pow2((shift_plan(i).low + shift_plan(i).bits) as nat),
        shift_plan(i).exact == i.mask_exact,
        pext_plan(i).pmask == i.est,
        pext_plan(i).bits as int == ones(i.est) as u32,
        pext_plan(i).exact == i.mask_exact,
{
    lemma_log_bounds(i.est as int);
    lemma_low_bounds(i.est as int);
    let r = log2_of(i.est as int);
    lemma2_to64_rest();
    if r >= 64 {
        lemma_pow2_le(64, r as nat);
    }
}

/// A plan by the distance from a base takes in the range and as much again on both
/// sides, as far as there are keys.
pub proof fn plans_take_in_the_range(i: PlanInput, lo: int, hi: int, x: int)
    requires
        i.kb == 32 || i.kb == 64,
        0 <= lo < hi <= largest_key(i.kb),
        lo - (hi - lo) <= x <= hi + (hi - lo),
        0 <= x <= largest_key(i.kb),
    ensures
        sub_plan(i, lo, hi).base <= lo,
        sub_plan(i, lo, hi).base <= x,
        x - sub_plan(i, lo, hi).base < pow2(sub_plan(i, lo, hi).bits as nat),
        sub_plan(i, lo, hi).base >= lo - (hi - lo),
        !sub_plan(i, lo, hi).exact,
{
    let base = if lo < hi - lo {
        0
    } else {
        lo - (hi - lo)
    };
    let top = if hi + (hi - lo) > largest_key(i.kb) {
        largest_key(i.kb)
    } else {
        hi + (hi - lo)
    };
    lemma_log_bounds(top - base);
    let r = log2_of(top - base);
    lemma2_to64_rest();
    if r >= 64 {
        lemma_pow2_le(64, r as nat);
    }
}

/// Of two plans the one with fewer passes is preferred, and of two with as many the one
/// whose tables are at least eight times smaller; otherwise one that needs no check;
/// no two plans are preferred to each other.
pub proof fn plans_with_fewer_passes_are_preferred(p: RadixPlan, q: RadixPlan)
    ensures
        passes_for(p.bits, p.width) < passes_for(q.bits, q.width) ==> beats(p, q),
        passes_for(p.bits, p.width) == passes_for(q.bits, q.width) && p.width <= q.width - 3 ==> beats(p, q),
        passes_for(p.bits, p.width) == passes_for(q.bits, q.width) && -3 < p.width - q.width < 3 ==> beats(p, q) == (p.exact && !q.exact),
        !(beats(p, q) && beats(q, p)),
{
}

/// The digits of a plan differ by one bit at most, are as few as the width allows, and
/// stand one behind the other from the lowest bit to the highest.
pub proof fn digits_stand_side_by_side(d: DigitPlan, total: int, width: int, p: int, q: int)
    requires
        made(d, total, width),
        total > 0,
        width > 0,
        0 <= p < d.passes,
        0 <= q < d.passes,
    ensures
        -1 <= d.bits[p] - d.bits[q] <= 1,
        p < q ==> d.bits[p] >= d.bits[q],
        d.passes * width >= total,
        (d.passes - 1) * width < total,
        d.shift[0] == 0,
        p + 1 < d.passes ==> d.shift[p + 1] == d.shift[p] + d.bits[p],
        d.shift[d.passes - 1] + d.bits[d.passes - 1] == total,
{
    let k = d.passes as int;
    assert(k * width >= total && (k - 1) * width < total) by (nonlinear_arith)
        requires
            k == (total + width - 1) / width,
            width > 0,
            total > 0,
    ;
    assert(d.bits[p] == d.bits[p] && d.bits[q] == d.bits[q]);
    assert(d.shift[0] as int == d.edge(0));
    assert(d.shift[p] as int == d.edge(p));
    assert(d.shift[k - 1] as int == d.edge(k - 1));
    assert(d.edge(k) == d.edge(k - 1) + d.bits[k - 1]);
    if p + 1 < k {
        assert(d.shift[p + 1] as int == d.edge(p + 1));
        assert(d.edge(p + 1) == d.edge(p) + d.bits[p]);
    }
}

// ---- levels --------------------------------------------------------------------------------------

/// A part takes a level of its own where it is larger than a third of the last cache,
/// and than 4 MiB.
pub proof fn levels_begin_where_the_cache_ends(caches: CacheSizes, bytes: int)
    requires
        bytes >= 0,
    ensures
        bytes > level_bytes(caches) <==> bytes > 4 * 1024 * 1024 && bytes > caches.l3 / 3,
{
}

/// A bucket is as large as the first cache, but for very small and very large ones.
pub proof fn buckets_fit_the_first_cache(caches: CacheSizes)
    ensures
        16 * 1024 <= bucket_size(caches) <= 64 * 1024,
        16 * 1024 <= caches.l1d <= 64 * 1024 ==> bucket_size(caches) == caches.l1d,
        caches.l1d <= 16 * 1024 ==> bucket_size(caches) == 16 * 1024,
        caches.l1d >= 64 * 1024 ==> bucket_size(caches) == 64 * 1024,
{
}

/// The top digit of a level has 8 to 13 bits, as far as the keys have them, and parts
/// the level into buckets of the size that fits, where so many bits are enough.
pub proof fn top_digits_part_into_buckets(bytes: int, bits: int, caches: CacheSizes)
    requires
        0 <= bytes,
        0 <= bits,
    ensures
        level_width(bytes, bits, caches) <= 13,
        level_width(bytes, bits, caches) <= bits,
        bits >= 8 ==> level_width(bytes, bits, caches) >= 8,
        8 < level_width(bytes, bits, caches) < bits ==> pow2(level_width(bytes, bits, caches) as nat) <= bytes / bucket_size(caches),
        level_width(bytes, bits, caches) < 13 && level_width(bytes, bits, caches) < bits ==> bytes / bucket_size(caches) < pow2((level_width(bytes, bits, caches) + 1) as nat),
{
    lemma2_to64();
    let q = bytes / bucket_size(caches);
    assert(q >= 0) by (nonlinear_arith)
        requires
            q == bytes / bucket_size(caches),
            bytes >= 0,
            bucket_size(caches) > 0,
    ;
    if q >= 1 {
        lemma_log_bounds(q);
        if log2_of(q) < 8 {
            lemma_pow2_le((log2_of(q) + 1) as nat, 9);
        } else if log2_of(q) > 13 {
            lemma_pow2_le(13, log2_of(q) as nat);
        }
    }
}

// ---- routes --------------------------------------------------------------------------------------

/// Elements in order take the first route and only they do; those in reversed order the
/// second and only they, where they are not in order; the fourth is for at most a
/// sixteenth of descents.
pub proof fn routes_follow_the_order<T: Elem>(a: Seq<T>)
    ensures
        1 <= first_route(a) <= 5,
        first_route(a) == 1 <==> forall|i: int, j: int| 0 <= i <= j < a.len() ==> elem_le::<T>()(#[trigger] a[i], #[trigger] a[j]),
        first_route(a) == 2 ==> forall|i: int, j: int| 0 <= i <= j < a.len() ==> elem_le::<T>()(#[trigger] a[j], #[trigger] a[i]),
        first_route(a) != 1 && (forall|i: int, j: int| 0 <= i <= j < a.len() ==> elem_le::<T>()(#[trigger] a[j], #[trigger] a[i])) ==> first_route(a) == 2,
        first_route(a) == 4 ==> 16 * descents_to(elem_le::<T>(), a, a.len() as int) <= a.len(),
{
    let le = elem_le::<T>();
    let n = a.len() as int;
    lemma_elem_le_total::<T>();
    lemma_no_commit(le, a);
    assert(a.take(n) =~= a);
    if descents_to(le, a, n) == 0 {
        lemma_no_descents(le, a, n);
    }
    if sorted(le, a) {
        lemma_sorted_no_descents(le, a, n);
    }
    if ascents_to(le, a, n) == 0 {
        lemma_no_ascents(le, a, n);
    }
    if forall|i: int, j: int| 0 <= i <= j < a.len() ==> le(#[trigger] a[j], #[trigger] a[i]) {
        lemma_falls(le, a, n);
    }
}

proof fn lemma_falls<T>(le: spec_fn(T, T) -> bool, s: Seq<T>, n: int)
    requires
        0 <= n <= s.len(),
        forall|i: int, j: int| 0 <= i <= j < s.len() ==> le(#[trigger] s[j], #[trigger] s[i]),
    ensures
        ascents_to(le, s, n) == 0,
    decreases n,
{
    if n > 1 {
        lemma_falls(le, s, n - 1);
        assert(le(s[n - 1], s[n - 2]));
    }
}

proof fn lemma_same_direction<T>(le: spec_fn(T, T) -> bool, s: Seq<T>, j: int, down: bool)
    requires
        1 <= j <= s.len(),
    ensures
        forall|k: int| j <= k < same_to(le, s, j, down) ==> #[trigger] descent(le, s, k) == down,
        same_to(le, s, j, down) < s.len() ==> descent(le, s, same_to(le, s, j, down)) != down,
    decreases s.len() - j,
{
    if j < s.len() && descent(le, s, j) == down {
        lemma_same_direction(le, s, j + 1, down);
    }
}

/// A run goes on as long as its direction does: no element of it is less than the one
/// before, or each is, and the element behind it would not go on so.
pub proof fn runs_are_maximal<T>(le: spec_fn(T, T) -> bool, s: Seq<T>, i: int)
    requires
        0 <= i < s.len(),
    ensures
        i < run_end(le, s, i) <= s.len(),
        ({
            let e = run_end(le, s, i);
            ||| (forall|k: int| i < k < e ==> le(s[k - 1], #[trigger] s[k])) && (e < s.len() ==> !le(s[e - 1], s[e]))
            ||| (forall|k: int| i < k < e ==> !le(s[k - 1], #[trigger] s[k])) && (e < s.len() ==> le(s[e - 1], s[e]))
        }),
{
    let down = i + 1 < s.len() && descent(le, s, i + 1);
    lemma_same_to(le, s, i + 1, down);
    lemma_same_direction(le, s, i + 1, down);
    let e = run_end(le, s, i);
    assert forall|k: int| i < k < e implies le(s[k - 1], #[trigger] s[k]) == !down by {
        assert(descent(le, s, k) == down);
    }
}

/// A sample is one element in 32, 512 at most, spread over the whole range.
pub proof fn samples_are_spread(n: int, i: int)
    requires
        n >= 32,
        0 <= i < sample_size(n),
    ensures
        32 * sample_size(n) <= n,
        sample_size(n) <= 512,
        n < 32 * 512 ==> n < 32 * (sample_size(n) + 1),
        0 <= sample_place(n, i) < n,
        i > 0 ==> sample_place(n, i - 1) + 32 <= sample_place(n, i),
{
    let m = sample_size(n);
    let d = n / m;
    assert(d >= 32 && m * d <= n) by (nonlinear_arith)
        requires
            d == n / m,
            1 <= m,
            32 * m <= n,
    ;
    assert(i * d + d <= m * d) by (nonlinear_arith)
        requires
            i + 1 <= m,
            d >= 32,
    ;
    assert(i * d >= 0) by (nonlinear_arith)
        requires
            i >= 0,
            d >= 32,
    ;
    assert((i - 1) * d == i * d - d) by (nonlinear_arith);
}

proof fn lemma_scan_sorted<T>(le: spec_fn(T, T) -> bool, s: Seq<T>, kp: Seq<int>, top: int, i: int)
    requires
        0 <= i,
        sorted(le, s),
        kp.len() > 0 ==> 0 <= kp.last() < i,
    ensures
        scan_ends(le, s, kp, top, i),
    decreases s.len() - i,
{
    reveal_with_fuel(scan_ends, 2);
    if i < s.len() {
        if kp.len() > 0 {
            assert(le(s[kp.last()], s[i]));
        }
        lemma_scan_sorted(le, s, kp.push(i), top, i + 1);
    }
}

/// Elements in order are never too many displaced.
pub proof fn sorted_elements_are_not_displaced<T>(le: spec_fn(T, T) -> bool, s: Seq<T>)
    requires
        forall|i: int, j: int| 0 <= i <= j < s.len() ==> le(#[trigger] s[i], #[trigger] s[j]),
    ensures
        few_displaced(le, s),
{
    lemma_scan_sorted(le, s, Seq::empty(), 0, 0);
}

/// An eighth of the elements may be displaced, and on the way an eighth of those looked
/// at and 64, and one more.
pub proof fn an_eighth_may_be_displaced(n: int, i: int, k: int)
    requires
        0 <= i <= n,
    ensures
        k <= displaced_allowed(n, i) <==> k <= n / 8 + 1 && k <= i / 8 + 65,
{
}

/// As many of the last kept elements give way to one that goes before them as it takes,
/// four at most: the next one below would not go after it. Where four are not enough
/// none gives way.
pub proof fn kept_elements_give_way<T>(le: spec_fn(T, T) -> bool, kept: Seq<T>, x: T, j: int)
    requires
        1 <= j <= 4,
        forall|k: int| 1 <= k < j ==> k < kept.len() && !le(#[trigger] kept[kept.len() - 1 - k], x),
    ensures
        kept.len() <= j || le(kept[kept.len() - 1 - j], x) ==> pops_from(le, kept, x, 1) == j,
        j == 4 && kept.len() > 4 && !le(kept[kept.len() - 5], x) ==> pops_from(le, kept, x, 1) == 0,
{
    reveal_with_fuel(pops_from, 6);
    assert(1 < j ==> !le(kept[kept.len() - 1 - 1], x));
    assert(2 < j ==> !le(kept[kept.len() - 1 - 2], x));
    assert(3 < j ==> !le(kept[kept.len() - 1 - 3], x));
}

// ---- the radix route -----------------------------------------------------------------------------

/// The bits that vary are those in which some two words differ: none where all words
/// are the same, and every word has the bits of the first in all others.
pub proof fn bits_vary_where_words_differ(s: Seq<u64>, n: int, mask: u64)
    requires
        0 < n <= s.len(),
    ensures
        varying(s, n) == 0 <==> forall|i: int| 0 <= i < n ==> #[trigger] s[i] == s[0],
        forall|i: int| 0 <= i < n ==> (#[trigger] s[i] ^ s[0]) & !varying(s, n) == 0,
        (forall|i: int| 0 <= i < n ==> (#[trigger] s[i] ^ s[0]) & !mask == 0) ==> varying(s, n) & !mask == 0,
    decreases n,
{
    let v = varying(s, n - 1);
    let (x, y) = (s[n - 1], s[0]);
    if n > 1 {
        bits_vary_where_words_differ(s, n - 1, mask);
    }
    assert forall|i: int| 0 <= i < n implies (#[trigger] s[i] ^ s[0]) & !varying(s, n) == 0 by {
        lemma_joined_bits(v, s[i], s[0], x, mask);
        lemma_joined_bits(v, x, y, x, mask);
    }
    lemma_joined_bits(v, x, y, x, mask);
    if forall|i: int| 0 <= i < n ==> #[trigger] s[i] == s[0] {
        assert(x == y);
    }
    if forall|i: int| 0 <= i < n ==> (#[trigger] s[i] ^ s[0]) & !mask == 0 {
        assert((s[n - 1] ^ s[0]) & !mask == 0);
    }
}

proof fn lemma_joined_bits(v: u64, a: u64, y: u64, x: u64, mask: u64)
    ensures
        (v | (x ^ y)) == 0 <==> v == 0 && x == y,
        (a ^ y) & !v == 0 ==> (a ^ y) & !(v | (x ^ y)) == 0,
        (x ^ y) & !(v | (x ^ y)) == 0,
        v & !mask == 0 && (x ^ y) & !mask == 0 ==> (v | (x ^ y)) & !mask == 0,
        0u64 & !mask == 0,
{
    assert(((v | (x ^ y)) == 0 <==> v == 0 && x == y) && ((a ^ y) & !v == 0 ==> (a ^ y) & !(v | (x ^ y)) == 0) && (x ^ y) & !(v | (x ^ y)) == 0 && (v & !mask == 0 && (x ^ y)
        & !mask == 0 ==> (v | (x ^ y)) & !mask == 0) && 0u64 & !mask == 0) by (bit_vector);
}

/// The bucket of a key is the top bits of its product with the multiplier, modulo a
/// word: twelve for fixed keys of 64 bits, and eleven for others.
pub proof fn buckets_are_the_top_bits_of_a_product<T: Elem>(k: u64, mul: u64)
    ensures
        dict_width::<T>() == 11 || dict_width::<T>() == 12,
        dict_width::<T>() == 12 <==> !T::has_chunks() && <T::Key as RadixKey>::BITS == 64,
        dict_hash(k, mul, dict_width::<T>()) as int == (k * mul) % 0x1_0000_0000_0000_0000 / pow2((64 - dict_width::<T>()) as nat) as int,
{
    let bits = dict_width::<T>();
    lemma_shr_is_div(k.wrapping_mul(mul), (64 - bits) as u32);
}

/// A dictionary is tried where the sample calls for one and the plan takes two passes or
/// more, and a range is split where it has 1024 elements, is unordered, is larger than
/// the buffer, and its plan takes three passes or more.
pub proof fn long_plans_are_avoided<T: Elem>(h: Hints, a: Seq<T>, c: int, mask: u64, known: bool, unordered: bool, buf: nat, digit_bits: u32, machine: Machine)
    ensures
        tries_dict::<T::Key>(h, a.len() as int) ==> h.dict && ({
            let p = hinted_plan::<T::Key>(h, a.len() as int);
            passes_for(p.bits, p.width) > 1
        }),
        is_split(a, c, mask, known, unordered, buf, digit_bits, machine) ==> a.len() >= 1024 && unordered && buf < a.len(),
        tries_few(a, c) ==> a.len() >= 1024 && 2 <= pivot_of(a, c).1.n_distinct <= 4 && vstd::layout::size_of::<T>() == 8 && !T::has_chunks(),
{
}

/// The buffer of a split holds half of the elements and a little more, but not all of
/// them.
pub proof fn splits_take_half_the_memory(n: nat)
    requires
        n >= 32,
    ensures
        n < 2 * half_room(n),
        16 * half_room(n) <= 9 * n + 128,
{
}

// ---- where a sort leads --------------------------------------------------------------------------

proof fn lemma_one_round<T: Elem, H: Hooks>(t: Trail<H::Tally>, a: Seq<T>, free: bool, digit_bits: u32, machine: Machine, r: Trail<H::Tally>)
    requires
        32 < a.len() <= 0xFFFF_FFFF,
        round_end::<T, H>(retold_trail(t, H::after(t.track.tally, Note::Enter)), a, 0, free, digit_bits, machine) == (RoundEnd { trail: r, left: None::<(Seq<T>, u64)> }),
    ensures
        sort_end::<T, H>(t, a, free, digit_bits, machine) == retold_trail(r, H::after(r.track.tally, Note::Leave)),
{
    let begun = retold_trail(t, H::after(t.track.tally, Note::Enter));
    lemma_rounds_step::<T, H>(begun, a, 0, free, digit_bits, machine);
    assert(range_end::<T, H>(t, a, 0, free, digit_bits, machine) == retold_trail(r, H::after(r.track.tally, Note::Leave))) by {
        reveal(rounds_end);
    }
    reveal(sort_end);
}

/// Elements in order are sorted by the pass that looks at them.
pub proof fn sorting_the_sorted<T: Elem, H: Hooks>(t: Trail<H::Tally>, a: Seq<T>, free: bool, digit_bits: u32, machine: Machine)
    requires
        32 < a.len() <= 0xFFFF_FFFF,
        forall|i: int, j: int| 0 <= i <= j < a.len() ==> elem_le::<T>()(#[trigger] a[i], #[trigger] a[j]),
    ensures
        sort_end::<T, H>(t, a, free, digit_bits, machine) == retold_trail(
            t,
            H::after(H::after(scout_tally::<T, H>(H::after(t.track.tally, Note::Enter), a, 0, a.len() as int), Note::Route(1)), Note::Leave),
        ),
{
    let le = elem_le::<T>();
    let n = a.len() as int;
    lemma_no_commit(le, a);
    lemma_sorted_no_descents(le, a, n);
    let begun = retold_trail(t, H::after(t.track.tally, Note::Enter));
    assert(!exists|k: int| #[trigger] stops_at(le, a, k));
    let seen = scout_tally::<T, H>(begun.track.tally, a, 0, n);
    let r = retold_trail(begun, H::after(seen, Note::Route(1)));
    assert(round_end::<T, H>(begun, a, 0, free, digit_bits, machine) == (RoundEnd { trail: r, left: None::<(Seq<T>, u64)> })) by {
        reveal(round_end);
    }
    lemma_one_round::<T, H>(t, a, free, digit_bits, machine, r);
}

/// Elements of which none is greater than one before it are turned round after the
/// pass that looks at them.
pub proof fn sorting_the_reversed<T: Elem, H: Hooks>(t: Trail<H::Tally>, a: Seq<T>, free: bool, digit_bits: u32, machine: Machine)
    requires
        32 < a.len() <= 0xFFFF_FFFF,
        first_route(a) == 2,
    ensures
        sort_end::<T, H>(t, a, free, digit_bits, machine) == retold_trail(
            t,
            H::after(reverse_tally::<T, H>(H::after(scout_tally::<T, H>(H::after(t.track.tally, Note::Enter), a, 0, a.len() as int), Note::Route(2)), a), Note::Leave),
        ),
{
    let le = elem_le::<T>();
    let n = a.len() as int;
    let begun = retold_trail(t, H::after(t.track.tally, Note::Enter));
    assert(!exists|k: int| #[trigger] stops_at(le, a, k));
    let seen = scout_tally::<T, H>(begun.track.tally, a, 0, n);
    let r = retold_trail(begun, reverse_tally::<T, H>(H::after(seen, Note::Route(2)), a));
    assert(round_end::<T, H>(begun, a, 0, free, digit_bits, machine) == (RoundEnd { trail: r, left: None::<(Seq<T>, u64)> })) by {
        reveal(round_end);
    }
    lemma_one_round::<T, H>(t, a, free, digit_bits, machine, r);
}

/// Elements of a few runs are merged with a buffer of half of them and one.
pub proof fn sorting_a_few_runs<T: Elem, H: Hooks>(t: Trail<H::Tally>, a: Seq<T>, free: bool, digit_bits: u32, machine: Machine)
    requires
        32 < a.len() <= 0xFFFF_FFFF,
        first_route(a) == 3,
    ensures
        sort_end::<T, H>(t, a, free, digit_bits, machine) == retold_trail(
            buffer_for::<T, H::Tally>(retold_trail(t, H::after(t.track.tally, Note::Enter)), a.len() / 2 + 1),
            H::after(few_runs_tally::<T, H>(H::after(scout_tally::<T, H>(H::after(t.track.tally, Note::Enter), a, 0, a.len() as int), Note::Route(3)), a), Note::Leave),
        ),
{
    let le = elem_le::<T>();
    let n = a.len() as int;
    let begun = retold_trail(t, H::after(t.track.tally, Note::Enter));
    assert(!exists|k: int| #[trigger] stops_at(le, a, k));
    let seen = scout_tally::<T, H>(begun.track.tally, a, 0, n);
    let r = retold_trail(buffer_for::<T, H::Tally>(begun, a.len() / 2 + 1), few_runs_tally::<T, H>(H::after(seen, Note::Route(3)), a));
    assert(round_end::<T, H>(begun, a, 0, free, digit_bits, machine) == (RoundEnd { trail: r, left: None::<(Seq<T>, u64)> })) by {
        reveal(round_end);
    }
    lemma_one_round::<T, H>(t, a, free, digit_bits, machine, r);
}

/// The pass that looks at the order gives up where, after a multiple of 1024 elements,
/// there was an ascent, there are more than four runs, and more descents than an eighth
/// of the elements and 64.
pub proof fn scouts_give_up_on_the_unordered<T>(le: spec_fn(T, T) -> bool, a: Seq<T>, k: int)
    ensures
        commits_at(le, a, k) <==> k % 1024 == 0 && ascents_to(le, a, k + 1) > 0 && runs_to(le, a, k + 1).0 > 4 && descents_to(le, a, k + 1) > k / 8 + 64,
{
}

/// An element that goes on as its run does belongs to it, and the second element of a
/// run gives its direction; any other begins a run of its own.
pub proof fn runs_are_counted<T>(le: spec_fn(T, T) -> bool, a: Seq<T>, n: int)
    requires
        1 <= n < a.len(),
    ensures
        runs_to(le, a, 1) == (1int, 0int),
        ({
            let (runs, dir) = runs_to(le, a, n);
            let falls = !le(a[n - 1], a[n]);
            &&& runs >= 1
            &&& dir == 0 || dir == 1 || dir == -1
            &&& dir == 0 ==> runs_to(le, a, n + 1).0 == runs && runs_to(le, a, n + 1).1 != 0 && (runs_to(le, a, n + 1).1 < 0 <==> falls)
            &&& dir != 0 && (dir < 0) == falls ==> runs_to(le, a, n + 1) == (runs, dir)
            &&& dir != 0 && (dir < 0) != falls ==> runs_to(le, a, n + 1) == (runs + 1, 0int)
        }),
    decreases n,
{
    if n > 1 {
        runs_are_counted(le, a, n - 1);
    }
}

} // verus!
