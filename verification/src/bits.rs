//! Facts about the bits of unsigned words that the radix sorts rest on.
use vstd::arithmetic::power2::{lemma2_to64, lemma2_to64_rest, lemma_pow2_adds, lemma_pow2_pos, lemma_pow2_strictly_increases, pow2};
use vstd::bits::{lemma_u64_low_bits_mask_is_mod, lemma_u64_shl_is_mul, lemma_u64_shr_is_div, low_bits_mask};
use vstd::prelude::*;

verus! {

/// The low `w` bits of `k` above bit `s`.
pub open spec fn digit(k: u64, s: nat, w: nat) -> nat {
    ((k as nat) / pow2(s)) % pow2(w)
}

pub proof fn lemma_pow2_le(a: nat, b: nat)
    requires
        a <= b,
    ensures
        pow2(a) <= pow2(b),
{
    if a < b {
        lemma_pow2_strictly_increases(a, b);
    }
}

/// A word is below the power of two of its width.
pub proof fn lemma_u64_lt_pow2_64(k: u64)
    ensures
        (k as nat) < pow2(64),
{
    lemma2_to64_rest();
}

pub proof fn lemma_pow2_fits(w: nat)
    requires
        w < 64,
    ensures
        pow2(w) <= 0x8000_0000_0000_0000,
        pow2(w) > 0,
{
    lemma_pow2_pos(w);
    lemma_pow2_le(w, 63);
    lemma2_to64_rest();
}

pub proof fn lemma_pow2_32()
    ensures
        pow2(32) == 0x1_0000_0000,
        pow2(16) == 0x1_0000,
        pow2(0) == 1,
{
    lemma2_to64();
}

/// `1 << w` is a power of two.
pub proof fn lemma_one_shl(w: u32)
    requires
        w < 64,
    ensures
        (1u64 << w) == pow2(w as nat),
{
    lemma_pow2_fits(w as nat);
    lemma_u64_shl_is_mul(1, w as u64);
    let w64: u64 = w as u64;
    assert((1u64 << w) == (1u64 << w64)) by (bit_vector)
        requires
            w64 == w as u64,
            w < 64,
    ;
}

/// Shifting right by less than the width divides.
pub proof fn lemma_shr_is_div(k: u64, s: u32)
    requires
        s < 64,
    ensures
        (k >> s) == k as nat / pow2(s as nat),
{
    lemma_u64_shr_is_div(k, s as u64);
    let s64: u64 = s as u64;
    assert((k >> s) == (k >> s64)) by (bit_vector)
        requires
            s64 == s as u64,
            s < 64,
    ;
}

/// The digit that `(k >> s) & ((1 << w) - 1)` extracts.
pub proof fn lemma_digit(k: u64, s: u32, w: u32)
    requires
        s < 64,
        w < 64,
    ensures
        ((k >> s) & (((1u64 << w) - 1) as u64)) == digit(k, s as nat, w as nat),
        digit(k, s as nat, w as nat) < pow2(w as nat),
{
    lemma_shr_is_div(k, s);
    lemma_one_shl(w);
    lemma_pow2_fits(w as nat);
    lemma_u64_low_bits_mask_is_mod(k >> s, w as nat);
    assert(low_bits_mask(w as nat) == pow2(w as nat) - 1);
}

/// Cutting a word at bit `s + w`: the digit above the rest.
pub proof fn lemma_digit_split(k: nat, s: nat, w: nat)
    ensures
        k % pow2(s + w) == ((k / pow2(s)) % pow2(w)) * pow2(s) + k % pow2(s),
{
    let a = pow2(s) as int;
    let b = pow2(w) as int;
    lemma_pow2_pos(s);
    lemma_pow2_pos(w);
    lemma_pow2_adds(s, w);
    let ki = k as int;
    assert(ki % (a * b) == ((ki / a) % b) * a + ki % a) by {
        vstd::arithmetic::div_mod::lemma_mod_breakdown(ki, a, b);
        vstd::arithmetic::mul::lemma_mul_is_commutative(a, (ki / a) % b);
    }
}

// ---- compressing the selected bits ----------------------------------------------------------

/// The bits of `k` that `mask` selects, compressed to the bottom.
pub open spec fn pext(k: u64, mask: u64) -> nat
    decreases mask,
{
    if mask == 0 {
        0
    } else {
        proof {
            lemma_halves(mask);
        }
        let rest = pext(k >> 1, mask >> 1);
        if mask & 1 == 1 {
            (k & 1) as nat + 2 * rest
        } else {
            rest
        }
    }
}

/// The number of set bits.
pub open spec fn ones(mask: u64) -> nat
    decreases mask,
{
    if mask == 0 {
        0
    } else {
        proof {
            lemma_halves(mask);
        }
        (mask & 1) as nat + ones(mask >> 1)
    }
}

pub proof fn lemma_halves(k: u64)
    ensures
        k == 2 * (k >> 1) + (k & 1),
        k & 1 == 0 || k & 1 == 1,
        k != 0 ==> (k >> 1) < k,
        k >> 1 <= k,
{
    assert(k == 2 * (k >> 1) + (k & 1) && (k & 1 == 0 || k & 1 == 1) && (k != 0 ==> (k >> 1) < k) && k >> 1 <= k) by (bit_vector);
}

/// The compressed bits are fewer than the mask has.
pub proof fn lemma_pext_bound(k: u64, mask: u64)
    ensures
        pext(k, mask) < pow2(ones(mask)),
        pext(k, mask) <= mask,
    decreases mask,
{
    lemma_halves(mask);
    lemma_halves(k);
    if mask == 0 {
        lemma_pow2_32();
    } else {
        lemma_pext_bound(k >> 1, mask >> 1);
        if mask & 1 == 1 {
            vstd::arithmetic::power2::lemma_pow2_unfold((1 + ones(mask >> 1)) as nat);
        }
    }
}

/// One step of the compression: the lowest selected bit, then the others.
pub proof fn lemma_pext_step(k: u64, m: u64)
    requires
        m != 0,
    ensures
        pext(k, m) == (if k & (m ^ (m & ((m - 1) as u64))) != 0 {
            1nat
        } else {
            0nat
        }) + 2 * pext(k, m & ((m - 1) as u64)),
        ones(m) == 1 + ones(m & ((m - 1) as u64)),
        (m & ((m - 1) as u64)) < m,
    decreases m,
{
    lemma_halves(m);
    let rest: u64 = m & ((m - 1) as u64);
    let low: u64 = m ^ rest;
    lemma_halves(rest);
    lemma_halves(k);
    if m & 1 == 1 {
        assert(low == 1 && rest >> 1 == m >> 1 && rest & 1 == 0 && rest < m) by (bit_vector)
            requires
                m & 1 == 1,
                low == m ^ rest,
                rest == m & ((m - 1) as u64),
        ;
        assert(pext(k, rest) == pext(k >> 1, m >> 1));
        assert(ones(rest) == ones(m >> 1));
        assert((if k & low != 0 {
            1nat
        } else {
            0nat
        }) == (k & 1) as nat);
    } else {
        let h: u64 = m >> 1;
        let hr: u64 = h & ((h - 1) as u64);
        let hl: u64 = h ^ hr;
        assert(h != 0 && (k & low != 0) == ((k >> 1) & hl != 0) && rest >> 1 == hr && rest & 1 == 0 && rest < m && (rest == 0 ==> hr == 0)) by (bit_vector)
            requires
                m & 1 == 0,
                m != 0,
                h == m >> 1,
                hr == h & ((h - 1) as u64),
                hl == h ^ hr,
                rest == m & ((m - 1) as u64),
                low == m ^ rest,
        ;
        lemma_pext_step(k >> 1, h);
        assert(pext(k, rest) == pext(k >> 1, hr));
        assert(ones(rest) == ones(hr));
    }
}

/// `x` and `y` differ in selected bits only.
pub open spec fn agree_outside(x: u64, y: u64, mask: u64) -> bool {
    (x ^ y) & !mask == 0
}

/// On words that differ in selected bits only, the compressed bits have the
/// order of the words.
pub proof fn lemma_pext_order(x: u64, y: u64, mask: u64)
    requires
        agree_outside(x, y, mask),
    ensures
        x < y <==> pext(x, mask) < pext(y, mask),
        x == y <==> pext(x, mask) == pext(y, mask),
    decreases mask,
{
    lemma_halves(mask);
    lemma_halves(x);
    lemma_halves(y);
    if mask == 0 {
        assert(x == y) by (bit_vector)
            requires
                (x ^ y) & !mask == 0,
                mask == 0,
        ;
    } else {
        assert(((x >> 1) ^ (y >> 1)) & !(mask >> 1) == 0 && (mask & 1 == 0 ==> x & 1 == y & 1)) by (bit_vector)
            requires
                (x ^ y) & !mask == 0,
        ;
        lemma_pext_order(x >> 1, y >> 1, mask >> 1);
    }
}

/// A mask that covers the differences to one word covers those between any
/// two.
pub proof fn lemma_agree_through(x: u64, y: u64, k0: u64, mask: u64)
    requires
        agree_outside(x, k0, mask),
        agree_outside(y, k0, mask),
    ensures
        agree_outside(x, y, mask),
{
    assert((x ^ y) & !mask == 0) by (bit_vector)
        requires
            (x ^ k0) & !mask == 0,
            (y ^ k0) & !mask == 0,
    ;
}

/// Adding the differences of one more word to a mask.
pub proof fn lemma_agree_or(x: u64, k0: u64, mask: u64, more: u64)
    ensures
        agree_outside(k0, k0, mask),
        agree_outside(x, k0, mask | (x ^ k0)),
        agree_outside(x, k0, mask) ==> agree_outside(x, k0, mask | more),
        agree_outside(x, k0, mask) ==> agree_outside(x, k0, more | mask),
{
    assert((k0 ^ k0) & !mask == 0 && (x ^ k0) & !(mask | (x ^ k0)) == 0 && ((x ^ k0) & !mask == 0 ==> (x ^ k0) & !(mask | more) == 0 && (x ^ k0) & !(more | mask) == 0)) by (bit_vector);
}

} // verus!
