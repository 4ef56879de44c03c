//! What the inputs of the measurements promise, said of the draws and of the keys.
use crate::bench::{I64Item, Item, Item2};
use crate::bench::counts::{cells_before, type_at, Cell};
use crate::bench::datasets::{
    customer, dataset_keys, digits_at, draw, exchanged, first_within, lemma_signed_range, letters_at,
    mask_over, numbered, repeated, joined, run_keys, runs_keys, sorted_and_reverse_come_from_random,
    source_keys, sparse_of, uniform_at, uniform_draw_lies_within, shuffled, uniform_signed_at,
    ElementType, Generate, Int32Keys, Int64Keys, KeyGen, Pattern, Source, TextKeys, UnitKeys,
};
use crate::bench::timing::{made_keys, swapped_by_draws};
use crate::key::{key_le, Key, LeafModel};
use crate::key::laws::{bytes_in_order, i32_in_order, i64_in_order, text_in_order};
use crate::key::string::one_text;
use crate::order::lemma_permutation_len;
use vstd::arithmetic::div_mod::lemma_div_denominator;
use vstd::arithmetic::power::{lemma_pow0, lemma_pow1, lemma_pow_adds, lemma_pow_positive, pow};
use vstd::prelude::*;

verus! {

// ---- draws ---------------------------------------------------------------------------------------

proof fn lemma_bits(x: u64)
    ensures
        mask_over(x) >= x,
        mask_over(x) & (mask_over(x) >> 1) == mask_over(x) >> 1,
        mask_over(x) > 0 ==> mask_over(x) & 1 == 1,
        x > 0 ==> (mask_over(x) >> 1) < x,
        x == 0 ==> mask_over(x) == 0,
        sparse_of(x) as u32 as int == (x % 256 / 16) * 0x1000_0000 + x % 16,
        x >> 11 == x / 2048,
        0x4000_0000u64 | (x & 0xF_FFFF) == 0x4000_0000 + x % 0x10_0000,
        0x5A5A_0000_0000_0000u64 | (x & 0xF_FFFF) == 0x5A5A_0000_0000_0000 + x % 0x10_0000,
{
    let a = x | (x >> 1);
    let b = a | (a >> 2);
    let c = b | (b >> 4);
    let d = c | (c >> 8);
    let e = d | (d >> 16);
    let m = e | (e >> 32);
    let r = (x & 0xFF) as u32;
    assert(m >= x && m & (m >> 1) == m >> 1 && (m > 0 ==> m & 1 == 1) && (x > 0 ==> (m >> 1) < x) && (x == 0 ==> m == 0) && ((((r >> 4) << 28) | (r & 0xF)) as i32) as u32 == (x
        % 256 / 16) * 0x1000_0000 + x % 16 && x >> 11 == x / 2048 && (0x4000_0000u64 | (x & 0xF_FFFF)) == 0x4000_0000 + x % 0x10_0000 && (0x5A5A_0000_0000_0000u64 | (x & 0xF_FFFF))
        == 0x5A5A_0000_0000_0000 + x % 0x10_0000) by (bit_vector)
        requires
            a == x | (x >> 1),
            b == a | (a >> 2),
            c == b | (b >> 4),
            d == c | (c >> 8),
            e == d | (d >> 16),
            m == e | (e >> 32),
            r == (x & 0xFF) as u32,
    ;
}

/// The mask of a range has all bits set from the lowest to the highest of the range,
/// and none above.
pub proof fn masks_reach_the_highest_bit(x: u64)
    ensures
        mask_over(x) >= x,
        mask_over(x) & (mask_over(x) >> 1) == mask_over(x) >> 1,
        mask_over(x) > 0 ==> mask_over(x) & 1 == 1,
        x > 0 ==> (mask_over(x) >> 1) < x,
        x == 0 ==> mask_over(x) == 0,
{
    lemma_bits(x);
}

/// A key with few varying bits has four bits of the draw at the top and four at the
/// bottom, and no other.
pub proof fn sparse_keys_vary_at_both_ends(w: u64)
    ensures
        sparse_of(w) as u32 as int == (w % 256 / 16) * 0x1000_0000 + w % 16,
{
    lemma_bits(w);
}

proof fn lemma_first_within(seed: u64, d: nat, mask: u64, range: u64, left: nat, k: nat)
    requires
        k < left,
        forall|i: nat| i < k ==> #[trigger] draw(seed, d + i) & mask > range,
        draw(seed, d + k) & mask <= range,
    ensures
        first_within(seed, d, mask, range, left) == (draw(seed, d + k) & mask, k + 1),
    decreases k,
{
    if k > 0 {
        assert(draw(seed, d + 0) & mask > range);
        assert forall|i: nat| i < k - 1 implies #[trigger] draw(seed, (d + 1) + i) & mask > range by {
            assert(draw(seed, d + (i + 1)) & mask > range);
        }
        assert((d + 1) + (k - 1) as nat == d + k);
        lemma_first_within(seed, d + 1, mask, range, (left - 1) as nat, (k - 1) as nat);
    }
}

/// A uniform draw takes draws until one fits the range under its mask, and gives
/// that one above the lower bound.
pub proof fn uniform_draws_take_the_first_that_fits(seed: u64, d: nat, lo: u64, hi: u64, k: nat)
    requires
        lo <= hi,
        hi - lo < u64::MAX,
        k < u64::MAX,
        forall|i: nat| i < k ==> #[trigger] draw(seed, d + i) & mask_over((hi - lo) as u64) > hi - lo,
        draw(seed, d + k) & mask_over((hi - lo) as u64) <= hi - lo,
    ensures
        uniform_at(seed, d, lo, hi).0 == lo + (draw(seed, d + k) & mask_over((hi - lo) as u64)),
        uniform_at(seed, d, lo, hi).1 == k + 1,
{
    let range = (hi - lo) as u64;
    assert(hi.wrapping_sub(lo) == range);
    lemma_first_within(seed, d, mask_over(range), range, u64::MAX as nat, k);
}

/// A uniform draw of signed integers is one of their distances, above the lower bound.
pub proof fn signed_draws_lie_above_the_bound(seed: u64, d: nat, lo: i64, hi: i64)
    requires
        lo <= hi,
    ensures
        uniform_signed_at(seed, d, lo, hi).0 == lo + uniform_at(seed, d, 0, (hi - lo) as u64).0,
        uniform_signed_at(seed, d, lo, hi).1 == uniform_at(seed, d, 0, (hi - lo) as u64).1,
        lo <= uniform_signed_at(seed, d, lo, hi).0 <= hi,
{
    lemma_signed_range(lo, hi, 0);
    let r = (hi as u64).wrapping_sub(lo as u64);
    uniform_draw_lies_within(seed, d, 0, r);
    lemma_signed_range(lo, hi, uniform_at(seed, d, 0, r).0);
}

/// The whole range takes one draw, whatever it is.
pub proof fn uniform_draws_of_the_whole_range(seed: u64, d: nat)
    ensures
        uniform_at(seed, d, 0, u64::MAX) == (draw(seed, d), 1nat),
{
}

// ---- keys ----------------------------------------------------------------------------------------

/// Integers as keys of 8-byte elements are ordered as the integers are.
pub proof fn narrow_keys_of_integers_in_order(v: i64, w: i64)
    requires
        i32::MIN <= v <= i32::MAX,
        i32::MIN <= w <= i32::MAX,
    ensures
        key_le(Int32Keys::int_key(v), Int32Keys::int_key(w)) == (v <= w),
{
    i32_in_order(v as i32, w as i32);
}

/// Integers as keys of 16-byte elements are ordered as the integers are.
pub proof fn wide_keys_of_integers_in_order(v: i64, w: i64)
    ensures
        key_le(Int64Keys::int_key(v), Int64Keys::int_key(w)) == (v <= w),
        key_le(UnitKeys::int_key(v), UnitKeys::int_key(w)) == (v <= w),
{
    i64_in_order(v, w);
}

/// A number in the text of a key shows its digits by value, the ones last, zeros in
/// front as far as the width asks for them.
pub proof fn digits_by_value(v: nat, width: nat)
    ensures
        digits_at(v, width).len() >= 1,
        digits_at(v, width).len() >= width,
        v < pow(10, digits_at(v, width).len()),
        digits_at(v, width).len() > 1 && digits_at(v, width).len() > width ==> pow(10, (digits_at(v, width).len() - 1) as nat) <= v,
        forall|i: nat| i < digits_at(v, width).len() ==> #[trigger] digits_at(v, width)[digits_at(v, width).len() - 1 - i] as int == 48 + v as int / #[trigger] pow(10, i) % 10,
    decreases v + width,
{
    lemma_pow0(10);
    lemma_pow1(10);
    let s = digits_at(v, width);
    if !(width <= 1 && v < 10) {
        let w: nat = if width > 0 {
            (width - 1) as nat
        } else {
            0
        };
        digits_by_value(v / 10, w);
        let t = digits_at(v / 10, w);
        let (m, p) = (t.len(), (t.len() - 1) as nat);
        lemma_pow_adds(10, 1, m);
        lemma_pow_adds(10, 1, p);
        assert forall|i: nat| i < s.len() implies #[trigger] s[s.len() - 1 - i] as int == 48 + v as int / #[trigger] pow(10, i) % 10 by {
            if i > 0 {
                let j = (i - 1) as nat;
                lemma_pow_positive(10, j);
                lemma_pow_adds(10, 1, j);
                lemma_div_denominator(v as int, 10, pow(10, j));
                assert(s[s.len() - 1 - i] == t[t.len() - 1 - j]);
                assert(pow(10, j) == pow(10, j));
            }
        }
    }
}

proof fn lemma_digits_differ(v: nat, a: nat, w: nat, b: nat) -> (k: int)
    requires
        v < w,
        digits_at(v, a).len() == digits_at(w, b).len(),
    ensures
        0 <= k < digits_at(v, a).len(),
        digits_at(v, a).take(k) == digits_at(w, b).take(k),
        digits_at(v, a)[k] < digits_at(w, b)[k],
    decreases v + a,
{
    let (x, y) = (digits_at(v, a), digits_at(w, b));
    digits_by_value(v, a);
    digits_by_value(w, b);
    lemma_pow0(10);
    lemma_pow1(10);
    if a <= 1 && v < 10 {
        assert(x.len() == 1);
        if !(b <= 1 && w < 10) {
            digits_by_value(
                w / 10,
                (if b > 0 {
                    b - 1
                } else {
                    0
                }) as nat,
            );
        }
        assert(x.take(0) =~= y.take(0));
        0
    } else {
        let c: nat = if a > 0 {
            (a - 1) as nat
        } else {
            0
        };
        let d: nat = if b > 0 {
            (b - 1) as nat
        } else {
            0
        };
        digits_by_value(v / 10, c);
        assert(x.len() > 1);
        let (p, q) = (digits_at(v / 10, c), digits_at(w / 10, d));
        assert(x == p.push((48 + v % 10) as u8));
        assert(y == q.push((48 + w % 10) as u8));
        if v / 10 < w / 10 {
            let k = lemma_digits_differ(v / 10, c, w / 10, d);
            assert(x.take(k) =~= p.take(k));
            assert(y.take(k) =~= q.take(k));
            k
        } else {
            lemma_digits_same(v / 10, c, d);
            assert(x.take(x.len() - 1) =~= p);
            assert(y.take(y.len() - 1) =~= q);
            x.len() - 1
        }
    }
}

/// Digits of one number in one length are the same.
proof fn lemma_digits_same(v: nat, a: nat, b: nat)
    requires
        digits_at(v, a).len() == digits_at(v, b).len(),
    ensures
        digits_at(v, a) == digits_at(v, b),
{
    let (x, y) = (digits_at(v, a), digits_at(v, b));
    digits_by_value(v, a);
    digits_by_value(v, b);
    assert forall|k: int| 0 <= k < x.len() implies x[k] == y[k] by {
        let i = (x.len() - 1 - k) as nat;
        assert(pow(10, i) == pow(10, i));
        assert(x[x.len() - 1 - i] as int == 48 + v as int / pow(10, i) % 10);
        assert(y[y.len() - 1 - i] as int == 48 + v as int / pow(10, i) % 10);
    }
    assert(x =~= y);
}

proof fn lemma_thirteen(v: nat)
    requires
        1_000_000_000_000 <= v < 10_000_000_000_000,
    ensures
        digits_at(v, 12).len() == 13,
{
    reveal_with_fuel(digits_at, 14);
}

/// Integers as keys of string elements are ordered as the integers are, as far as
/// their texts have one length.
pub proof fn text_keys_of_integers_in_order(v: i64, w: i64)
    requires
        -99_511_627_776 <= v <= 8_900_488_372_223,
        -99_511_627_776 <= w <= 8_900_488_372_223,
    ensures
        key_le(TextKeys::int_key(v), TextKeys::int_key(w)) == (v <= w),
{
    let (x, y) = ((v + 0x100_0000_0000) as nat, (w + 0x100_0000_0000) as nat);
    let (a, b) = (digits_at(x, 12), digits_at(y, 12));
    lemma_thirteen(x);
    lemma_thirteen(y);
    text_in_order(a, b);
    bytes_in_order(a, b);
    bytes_in_order(b, a);
    if v < w {
        let k = lemma_digits_differ(x, 12, y, 12);
        assert(a.take(k) == b.take(k));
    } else if w < v {
        let k = lemma_digits_differ(y, 12, x, 12);
        assert(b.take(k) == a.take(k));
    }
}

/// The letters of a key are lower case, and its prefix is the word that it is.
pub proof fn letters_are_lower_case(seed: u64, d: nat, n: nat)
    ensures
        letters_at(seed, d, n).len() == n,
        forall|i: int| 0 <= i < n ==> 97 <= #[trigger] letters_at(seed, d, n)[i] <= 122,
        customer().map_values(|b: u8| b as char) == "customer-"@,
{
    reveal_strlit("customer-");
    assert(customer().map_values(|b: u8| b as char) =~= "customer-"@);
}

/// A random key is the low word of a draw, the whole draw, or its upper 53 bits; one
/// with a long prefix shares all but its low twenty bits with the others.
pub proof fn keys_of_one_draw(seed: u64, d: nat)
    ensures
        Int32Keys::key_at(Source::Random, seed, d) == ((draw(seed, d) as u32 as i32).leaves(), 1nat),
        Int64Keys::key_at(Source::Random, seed, d) == ((draw(seed, d) as i64).leaves(), 1nat),
        exists|v: i64| v == draw(seed, d) as int / 2048 && UnitKeys::key_at(Source::Random, seed, d) == (#[trigger] v.leaves(), 1nat),
        exists|v: i32| v == 0x4000_0000 + draw(seed, d) % 0x10_0000 && Int32Keys::key_at(Source::Prefixed, seed, d) == (#[trigger] v.leaves(), 1nat),
        exists|v: i64| v == 0x5A5A_0000_0000_0000 + draw(seed, d) % 0x10_0000 && Int64Keys::key_at(Source::Prefixed, seed, d) == (#[trigger] v.leaves(), 1nat),
{
    let w = draw(seed, d);
    lemma_bits(w);
    let x = (w >> 11) as i64;
    let y = (0x4000_0000u64 | (w & 0xF_FFFF)) as i32;
    let z = (0x5A5A_0000_0000_0000u64 | (w & 0xF_FFFF)) as i64;
    assert(UnitKeys::key_at(Source::Random, seed, d) == (x.leaves(), 1nat));
    assert(Int32Keys::key_at(Source::Prefixed, seed, d) == (y.leaves(), 1nat));
    assert(Int64Keys::key_at(Source::Prefixed, seed, d) == (z.leaves(), 1nat));
}

/// A random text key has three to twelve letters, each from a draw of its own, and one
/// with a prefix eight digits behind it.
pub proof fn text_keys_of_draws(seed: u64, d: nat)
    ensures
        exists|n: nat| 3 <= n <= 12 && TextKeys::key_at(Source::Random, seed, d) == (one_text(#[trigger] letters_at(seed, d + 1, n)), n + 1),
        exists|v: nat| v < 100_000_000 && TextKeys::key_at(Source::Prefixed, seed, d) == (one_text(customer() + #[trigger] digits_at(v, 8)), 1nat),
{
    let w = draw(seed, d);
    let n = (3 + w % 10) as nat;
    assert(TextKeys::key_at(Source::Random, seed, d) == (one_text(letters_at(seed, d + 1, n)), n + 1));
    let v = (w % 100_000_000) as nat;
    assert(TextKeys::key_at(Source::Prefixed, seed, d) == (one_text(customer() + digits_at(v, 8)), 1nat));
}

/// Keys are drawn one after the other: the next one begins where the last one ended.
pub proof fn keys_are_drawn_in_turn<G: KeyGen>(source: Source, seed: u64, n: nat)
    ensures
        source_keys::<G>(source, seed, 0) == (Seq::<Seq<LeafModel>>::empty(), 0nat),
        source_keys::<G>(source, seed, n).0.len() == n,
        source_keys::<G>(source, seed, n + 1).0 == source_keys::<G>(source, seed, n).0.push(G::key_at(source, seed, source_keys::<G>(source, seed, n).1).0),
        source_keys::<G>(source, seed, n + 1).1 == source_keys::<G>(source, seed, n).1 + G::key_at(source, seed, source_keys::<G>(source, seed, n).1).1,
    decreases n,
{
    if n > 0 {
        keys_are_drawn_in_turn::<G>(source, seed, (n - 1) as nat);
    }
    let f = |d: nat| G::key_at(source, seed, d);
    let t = repeated(f, 0, n);
    assert(0 + t.1 == t.1);
    assert(repeated(f, 0, n + 1) == (t.0.push(f(t.1).0), t.1 + f(t.1).1));
}

// ---- datasets ------------------------------------------------------------------------------------

/// The dataset "all_equal" holds one key, "sawtooth" comes round after a thousand
/// keys, and "organ_pipe" falls as it rose.
pub proof fn patterns_of_keys<G: KeyGen>(n: nat, seed: u64, i: int)
    requires
        0 <= i < n <= 0xFFFF_FFFF,
    ensures
        dataset_keys::<G>(Pattern::AllEqual, n, seed).len() == n,
        dataset_keys::<G>(Pattern::AllEqual, n, seed)[i] == dataset_keys::<G>(Pattern::AllEqual, n, seed)[0],
        dataset_keys::<G>(Pattern::Sawtooth, n, seed).len() == n,
        i < 1000 ==> dataset_keys::<G>(Pattern::Sawtooth, n, seed)[i] == G::int_key(i as i64),
        i + 1000 < n ==> dataset_keys::<G>(Pattern::Sawtooth, n, seed)[i + 1000] == dataset_keys::<G>(Pattern::Sawtooth, n, seed)[i],
        dataset_keys::<G>(Pattern::OrganPipe, n, seed).len() == n,
        2 * i < n - 1 ==> dataset_keys::<G>(Pattern::OrganPipe, n, seed)[i] == G::int_key(i as i64),
        0 < 2 * i < n - 1 ==> dataset_keys::<G>(Pattern::OrganPipe, n, seed)[n - i] == dataset_keys::<G>(Pattern::OrganPipe, n, seed)[i],
{
}

/// The datasets of a source hold its keys in turn.
pub proof fn datasets_of_a_source<G: KeyGen>(n: nat, seed: u64)
    ensures
        dataset_keys::<G>(Pattern::Random, n, seed) == source_keys::<G>(Source::Random, seed, n).0,
        dataset_keys::<G>(Pattern::Prefixed, n, seed) == source_keys::<G>(Source::Prefixed, seed, n).0,
        dataset_keys::<G>(Pattern::SparseBits, n, seed) == source_keys::<G>(Source::SparseBits, seed, n).0,
        dataset_keys::<G>(Pattern::SmallRange, n, seed) == source_keys::<G>(Source::SmallRange, seed, n).0,
        made_keys::<G>(Pattern::Random, n, seed) == dataset_keys::<G>(Pattern::Random, n, seed),
{
}

/// The dataset "few_unique" holds keys out of the first hundred of "random".
pub proof fn few_unique_keys_come_from_a_hundred<G: KeyGen>(n: nat, seed: u64, i: int)
    requires
        0 <= i < n,
    ensures
        dataset_keys::<G>(Pattern::FewUnique, n, seed).len() == n,
        dataset_keys::<G>(Pattern::Random, 100, seed).contains(dataset_keys::<G>(Pattern::FewUnique, n, seed)[i]),
        dataset_keys::<G>(Pattern::FewUnique, n, seed)[i] == dataset_keys::<G>(Pattern::Random, 100, seed)[draw(
            seed,
            (source_keys::<G>(Source::Random, seed, 100).1 + i) as nat,
        ) as int % 100],
{
    keys_are_drawn_in_turn::<G>(Source::Random, seed, 100);
    let pool = source_keys::<G>(Source::Random, seed, 100);
    let k = (draw(seed, (pool.1 + i) as nat) % 100) as int;
    assert(pool.0[k] == dataset_keys::<G>(Pattern::FewUnique, n, seed)[i]);
}

/// A run begins with its key and goes on with one that is up to ten larger.
pub proof fn runs_rise_in_small_steps<G: KeyGen>(seed: u64, d: nat, key: int, n: nat)
    ensures
        run_keys::<G>(seed, d, key, n).0.len() == n,
        n > 0 ==> run_keys::<G>(seed, d, key, n).0[0] == G::int_key(key as i64),
        n > 0 ==> exists|e: nat, step: int|
            0 <= step <= 10 && run_keys::<G>(seed, d, key, n).0.skip(1) == (#[trigger] run_keys::<G>(seed, e, key + step, (n - 1) as nat)).0,
    decreases n,
{
    if n > 0 {
        let u = uniform_at(seed, d, 0, 10);
        uniform_draw_lies_within(seed, d, 0, 10);
        let t = run_keys::<G>(seed, d + u.1, key + u.0, (n - 1) as nat);
        runs_rise_in_small_steps::<G>(seed, d + u.1, key + u.0, (n - 1) as nat);
        assert(run_keys::<G>(seed, d, key, n).0.skip(1) =~= t.0);
    }
}

/// The dataset "runs" holds as many keys as it was asked for, and begins with a run of
/// 16 to 2000 of them, or of all.
pub proof fn runs_fill_the_dataset<G: KeyGen>(seed: u64, d: nat, left: nat)
    ensures
        runs_keys::<G>(seed, d, left).len() == left,
        left > 0 ==> exists|e: nat, f: nat, key: int, n: nat|
            {
                &&& n <= left
                &&& -100000 <= key <= 100000
                &&& 16 <= n <= 2000 || n == left
                &&& runs_keys::<G>(seed, d, left) == (#[trigger] run_keys::<G>(seed, e, key, n)).0 + #[trigger] runs_keys::<G>(seed, f, (left - n) as nat)
            },
    decreases left,
{
    if left > 0 {
        let u = uniform_at(seed, d, 16, 2000);
        uniform_draw_lies_within(seed, d, 16, 2000);
        let n: nat = if u.0 < left {
            u.0 as nat
        } else {
            left
        };
        let k = uniform_signed_at(seed, d + u.1, -100000i64, 100000);
        let e = d + u.1 + k.1;
        signed_draws_lie_above_the_bound(seed, d + u.1, -100000i64, 100000);
        let t = run_keys::<G>(seed, e, k.0 as int, n);
        runs_rise_in_small_steps::<G>(seed, e, k.0 as int, n);
        runs_fill_the_dataset::<G>(seed, e + t.1, (left - n) as nat);
        assert(runs_keys::<G>(seed, d, left) == run_keys::<G>(seed, e, k.0 as int, n).0 + runs_keys::<G>(seed, e + t.1, (left - n) as nat));
    }
}

/// The dataset "small_range" holds one of four keys at every place, where a key takes
/// one draw.
pub proof fn small_range_has_four_keys(seed: u64, d: nat)
    ensures
        exists|v: i64| 0 <= v < 4 && Int32Keys::key_at(Source::SmallRange, seed, d) == (#[trigger] Int32Keys::int_key(v), 1nat),
        exists|v: i64| 0 <= v < 4 && Int64Keys::key_at(Source::SmallRange, seed, d) == (#[trigger] Int64Keys::int_key(v), 1nat),
        exists|v: i64| 0 <= v < 4 && UnitKeys::key_at(Source::SmallRange, seed, d) == (#[trigger] UnitKeys::int_key(v), 1nat),
        exists|v: i64| 0 <= v < 4 && TextKeys::key_at(Source::SmallRange, seed, d) == (#[trigger] TextKeys::int_key(v), 1nat),
{
    let v = (draw(seed, d) % 4) as i64;
    assert(Int32Keys::key_at(Source::SmallRange, seed, d) == (Int32Keys::int_key(v), 1nat));
    assert(Int64Keys::key_at(Source::SmallRange, seed, d) == (Int64Keys::int_key(v), 1nat));
    assert(UnitKeys::key_at(Source::SmallRange, seed, d) == (UnitKeys::int_key(v), 1nat));
    assert(TextKeys::key_at(Source::SmallRange, seed, d) == (TextKeys::int_key(v), 1nat));
}

/// The input "sorted" of the timed comparison rises, and "reverse" falls, by one from
/// place to place.
pub proof fn timed_inputs_rise_and_fall<G: KeyGen>(n: nat, seed: u64, i: int)
    requires
        0 <= i < n <= 0xFFFF_FFFF,
    ensures
        made_keys::<G>(Pattern::Sorted, n, seed).len() == n,
        made_keys::<G>(Pattern::Sorted, n, seed)[i] == G::int_key(i as i64),
        made_keys::<G>(Pattern::Reverse, n, seed).len() == n,
        i > 0 ==> made_keys::<G>(Pattern::Reverse, n, seed)[i] == made_keys::<G>(Pattern::Sorted, n, seed)[n - i],
        made_keys::<G>(Pattern::Reverse, n, seed)[0] == G::int_key(n as i64),
        exists|v: i64| 0 <= v < 100 && made_keys::<G>(Pattern::FewUnique, n, seed)[i] == #[trigger] G::int_key(v),
{
    let v = (draw(seed, i as nat) % 100) as i64;
    assert(made_keys::<G>(Pattern::FewUnique, n, seed)[i] == G::int_key(v));
}

/// The places where two sequences differ.
pub open spec fn moved_places<T>(s: Seq<T>, t: Seq<T>) -> Set<int> {
    Set::new(|i: int| 0 <= i < s.len() && s[i] != t[i])
}

proof fn lemma_moved<T>(s: Seq<T>, t: Seq<T>, i: int, j: int)
    requires
        s.len() == t.len(),
        0 <= i < s.len(),
        0 <= j < s.len(),
        moved_places(s, t).finite(),
    ensures
        moved_places(s, exchanged(t, i, j)).finite(),
        moved_places(s, exchanged(t, i, j)).len() <= moved_places(s, t).len() + 2,
{
    let a = moved_places(s, t);
    let b = moved_places(s, exchanged(t, i, j));
    let c = a.insert(i).insert(j);
    assert(b.subset_of(c)) by {
        assert forall|k: int| b.contains(k) implies c.contains(k) by {
            if k != i && k != j {
                assert(exchanged(t, i, j)[k] == t[k]);
            }
        }
    }
    vstd::set_lib::lemma_len_subset(b, c);
}

/// A swap puts each of two drawn elements where the other stood, and leaves the others:
/// in a dataset the places are uniform draws, and in an input of the timed comparison
/// the remainders of two draws.
pub proof fn swaps_go_by_the_draws(s: Seq<Seq<LeafModel>>, seed: u64, d: nat, k: nat)
    requires
        0 < s.len() <= u64::MAX,
    ensures
        ({
            let t = shuffled(s, seed, d, k);
            let u = shuffled(s, seed, d, k + 1);
            let i = uniform_at(seed, d + t.1, 0, (s.len() - 1) as u64);
            let j = uniform_at(seed, d + t.1 + i.1, 0, (s.len() - 1) as u64);
            &&& u.1 == t.1 + i.1 + j.1
            &&& u.0[i.0 as int] == t.0[j.0 as int] && u.0[j.0 as int] == t.0[i.0 as int]
            &&& forall|h: int| 0 <= h < s.len() && h != i.0 && h != j.0 ==> #[trigger] u.0[h] == t.0[h]
        }),
        ({
            let t = swapped_by_draws(s, seed, k);
            let u = swapped_by_draws(s, seed, k + 1);
            let i = draw(seed, 2 * k) as int % s.len() as int;
            let j = draw(seed, 2 * k + 1) as int % s.len() as int;
            &&& u[i] == t[j] && u[j] == t[i]
            &&& forall|h: int| 0 <= h < s.len() && h != i && h != j ==> #[trigger] u[h] == t[h]
        }),
        shuffled(s, seed, d, 0) == (s, 0nat),
        swapped_by_draws(s, seed, 0) == s,
{
    few_places_move(s, seed, d, k);
    let t = shuffled(s, seed, d, k);
    let last = (s.len() - 1) as u64;
    let i = uniform_at(seed, d + t.1, 0, last);
    uniform_draw_lies_within(seed, d + t.1, 0, last);
    uniform_draw_lies_within(seed, d + t.1 + i.1, 0, last);
    assert((2 * ((k + 1) - 1)) as nat == 2 * k);
    assert((2 * ((k + 1) - 1) + 1) as nat == 2 * k + 1);
}

/// Two elements that change places so many times leave all but twice as many where
/// they stood.
pub proof fn few_places_move(s: Seq<Seq<LeafModel>>, seed: u64, d: nat, k: nat)
    requires
        0 < s.len() <= u64::MAX,
    ensures
        moved_places(s, shuffled(s, seed, d, k).0).finite(),
        moved_places(s, shuffled(s, seed, d, k).0).len() <= 2 * k,
        shuffled(s, seed, d, k).0.len() == s.len(),
        moved_places(s, swapped_by_draws(s, seed, k)).finite(),
        moved_places(s, swapped_by_draws(s, seed, k)).len() <= 2 * k,
        swapped_by_draws(s, seed, k).len() == s.len(),
    decreases k,
{
    if k == 0 {
        assert(moved_places(s, s) =~= Set::<int>::empty());
    } else {
        few_places_move(s, seed, d, (k - 1) as nat);
        let t = shuffled(s, seed, d, (k - 1) as nat);
        let last = (s.len() - 1) as u64;
        let i = uniform_at(seed, d + t.1, 0, last);
        let j = uniform_at(seed, d + t.1 + i.1, 0, last);
        uniform_draw_lies_within(seed, d + t.1, 0, last);
        uniform_draw_lies_within(seed, d + t.1 + i.1, 0, last);
        lemma_moved(s, t.0, i.0 as int, j.0 as int);
        let u = swapped_by_draws(s, seed, (k - 1) as nat);
        let n = s.len() as int;
        lemma_moved(s, u, draw(seed, (2 * (k - 1)) as nat) as int % n, draw(seed, (2 * (k - 1) + 1) as nat) as int % n);
    }
}

/// The dataset "nearly_sorted" differs from "sorted" in few places: two in a hundred,
/// or two where there are fewer than two hundred.
pub proof fn nearly_sorted_is_nearly_sorted<G: KeyGen>(n: nat, seed: u64)
    requires
        n <= u64::MAX,
    ensures
        moved_places(dataset_keys::<G>(Pattern::Sorted, n, seed), dataset_keys::<G>(Pattern::NearlySorted, n, seed)).len() <= if n < 200 {
            2
        } else {
            2 * (n / 100)
        },
        moved_places(made_keys::<G>(Pattern::Sorted, n, seed), made_keys::<G>(Pattern::NearlySorted, n, seed)).len() <= 2 * (n / 100),
        200 <= n ==> dataset_keys::<G>(Pattern::NearlySorted, n, seed) == shuffled(
            dataset_keys::<G>(Pattern::Sorted, n, seed),
            seed,
            source_keys::<G>(Source::Random, seed, n).1,
            n / 100,
        ).0,
        2 <= n < 200 ==> dataset_keys::<G>(Pattern::NearlySorted, n, seed) == shuffled(
            dataset_keys::<G>(Pattern::Sorted, n, seed),
            seed,
            source_keys::<G>(Source::Random, seed, n).1,
            1,
        ).0,
{
    let a = dataset_keys::<G>(Pattern::Sorted, n, seed);
    let b = made_keys::<G>(Pattern::Sorted, n, seed);
    keys_are_drawn_in_turn::<G>(Source::Random, seed, n);
    sorted_and_reverse_come_from_random::<G>(n, seed);
    lemma_permutation_len(dataset_keys::<G>(Pattern::Random, n, seed), a);
    assert(a.len() == n);
    assert(b.len() == n);
    if n > 1 {
        let k: nat = if n < 200 {
            1
        } else {
            n / 100
        };
        few_places_move(a, seed, source_keys::<G>(Source::Random, seed, n).1, k);
        few_places_move(b, seed, 0, n / 100);
    } else {
        assert(moved_places(a, a) =~= Set::<int>::empty());
        assert(swapped_by_draws(b, seed, 0) == b);
        assert(moved_places(b, b) =~= Set::<int>::empty());
    }
}

/// The elements of a dataset are numbered from zero on.
pub proof fn elements_are_numbered<T: Generate>(keys: Seq<<T::Keys as KeyGen>::Key>, i: int)
    requires
        0 <= i < keys.len() <= 0xFFFF_FFFF,
    ensures
        numbered::<T>(keys).len() == keys.len(),
        numbered::<T>(keys)[i] == T::item_of(keys[i], i as u32),
{
}

/// An element carries its key and its number.
pub proof fn elements_carry_key_and_number(k: i32, l: i64, i: u32)
    ensures
        Item::item_of(k, i).key == k,
        Item::item_of(k, i).number() == i,
        I64Item::item_of(l, i).key == l,
        I64Item::item_of(l, i).number() == i,
{
}

/// The texts of a pool stand one behind the other.
pub proof fn texts_stand_one_behind_the_other(keys: Seq<Vec<u8>>, k: int)
    requires
        0 < k <= keys.len(),
    ensures
        joined(keys, 0).len() == 0,
        joined(keys, k) == joined(keys, k - 1) + keys[k - 1]@,
        joined(keys, k).len() == joined(keys, k - 1).len() + keys[k - 1]@.len(),
{
}

/// The cells of the counts: every dataset for every type at every size, but for the one
/// of sparse bits, which is for 32-bit integers alone.
pub proof fn cells_of_the_counts(sizes: Seq<usize>, size: int, ty: int, p: Pattern)
    requires
        0 <= size < sizes.len(),
        0 <= ty < 4,
    ensures
        p != Pattern::SparseBits || type_at(ty) == ElementType::Int32 ==> cells_before(sizes, size, ty, p.place() + 1) == cells_before(sizes, size, ty, p.place()).push(
            Cell { n: sizes[size], ty: type_at(ty), dataset: p },
        ),
        p == Pattern::SparseBits && type_at(ty) != ElementType::Int32 ==> cells_before(sizes, size, ty, p.place() + 1) == cells_before(sizes, size, ty, p.place()),
        ty + 1 < 4 ==> cells_before(sizes, size, ty + 1, 0) == cells_before(sizes, size, ty, 12),
        size + 1 < sizes.len() ==> cells_before(sizes, size + 1, 0, 0) == cells_before(sizes, size, 3, 12),
        cells_before(sizes, 0, 0, 0).len() == 0,
        type_at(0) == ElementType::Int32 && type_at(1) == ElementType::Double && type_at(2) == ElementType::Int64 && type_at(3) == ElementType::Text,
{
    let d = p.place() + 1;
    let q = choose|q: Pattern| #[trigger] q.place() == d - 1;
    assert(q == p);
    p.names_apart(Pattern::SparseBits);
    type_at(ty).names_apart(ElementType::Int32);
    reveal_with_fuel(cells_before, 3);
}

} // verus!
