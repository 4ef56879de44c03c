//! Radix plans: which bits of the keys a radix sort looks at, in how many
//! passes, and through which key function.
use crate::bits::{lemma_one_shl, lemma_pow2_fits, lemma_pow2_le, ones};
use crate::view::{
    floor_log2, highest_bit, lemma_low_bit, log2_of, low_bit, truncated, RadixKey,
};
use vstd::arithmetic::power2::{lemma_pow2_pos, pow2};
use vstd::prelude::*;

verus! {

/// The whole-array (no-split) radix uses up to 16-bit digits.
pub const RADIX_MAX_DIGIT: u32 = 16;

/// The split path caps at 13 bits (64 KiB tables).
pub const SPLIT_MAX_DIGIT: u32 = 13;

/// The split is taken only from this many passes up.
pub const SPLIT_MIN_PASSES: u32 = 3;

/// The widest digit for `m` elements: about as many buckets as elements, 8 bits
/// at least.
pub open spec fn digit_cap(m: int, max_digit: int) -> int {
    if log2_of(m) < 8 {
        8
    } else if log2_of(m) > max_digit {
        max_digit
    } else {
        log2_of(m)
    }
}

/// The width of as few digits as the cap allows, the digits as even as can be.
pub open spec fn balanced_width(bits: int, m: int, max_digit: int) -> int {
    let cap = digit_cap(m, max_digit);
    if bits <= cap {
        bits
    } else {
        let passes = (bits + cap - 1) / cap;
        (bits + passes - 1) / passes
    }
}

/// Digit width for `bits` key bits over `m` elements. The width is capped;
/// within the cap, the width balances the passes (32 bits -> 3x11, not
/// 13+13+6).
pub fn digit_width(bits: u32, m: usize, max_digit: u32) -> (r: u32)
    requires
        8 <= max_digit < 32,
        bits <= 64,
    ensures
        r == balanced_width(bits as int, m as int, max_digit as int),
        r <= max_digit,
        bits > 0 ==> r >= 1,
        bits <= 8 * r,
        bits <= 8 ==> r == bits,
        r <= bits,
{
    let l: usize = floor_log2(m);
    let cap: u32 = if l < 8 {
        8
    } else if l >= max_digit as usize {
        max_digit
    } else {
        l as u32
    };
    if bits <= cap {
        return bits;
    }
    let passes: u32 = (bits + cap - 1) / cap;
    proof {
        let b = bits as int;
        let c = cap as int;
        let k = passes as int;
        assert(2 <= k <= 8 && k * c >= b) by (nonlinear_arith)
            requires
                k == (b + c - 1) / c,
                8 <= c < b <= 64,
        ;
        let w = (b + k - 1) / k;
        assert(1 <= w <= c && 8 * w >= b && w <= b) by (nonlinear_arith)
            requires
                w == (b + k - 1) / k,
                k * c >= b,
                2 <= k <= 8,
                8 <= b,
        ;
    }
    (bits + passes - 1) / passes
}

/// The kind of key function of a radix plan.
#[derive(Clone, Copy, Debug, PartialEq, Eq, Structural)]
pub enum PlanKind {
    /// The raw radix key.
    Full,
    /// The contiguous varying-bit range, shifted down.
    Shift,
    /// Only the varying bits, compressed.
    Pext,
    /// Key minus a base below the sampled minimum.
    Sub,
}

/// A radix plan: the key function, the number of bits it yields, the digit
/// width, and whether the plan is exact (derived from the true varying-bit
/// mask) or a guess from the sample that the histogram pass must verify against
/// every key.
#[derive(Clone, Copy, Debug, PartialEq, Eq, Structural)]
pub struct RadixPlan {
    /// The key function.
    pub kind: PlanKind,
    /// Key bits in the key function's domain; 0: nothing varies.
    pub bits: u32,
    /// Digit width.
    pub width: u32,
    /// Shift: bits below `low` are constant.
    pub low: u32,
    /// Pext: the varying bits.
    pub pmask: u64,
    /// Sub: key - base.
    pub base: u64,
    /// A valid plan needs the true mask within this.
    pub assumed: u64,
    /// No verification needed.
    pub exact: bool,
}

impl Default for RadixPlan {
    fn default() -> (r: Self)
        ensures
            r == (RadixPlan { kind: PlanKind::Full, bits: 0, width: 1, low: 0, pmask: 0, base: 0, assumed: u64::MAX, exact: true }),
    {
        RadixPlan { kind: PlanKind::Full, bits: 0, width: 1, low: 0, pmask: 0, base: 0, assumed: u64::MAX, exact: true }
    }
}

/// The number of digits of `width` bits that `bits` bits take.
pub open spec fn passes_for(bits: u32, width: u32) -> int {
    if bits > 0 {
        (bits + width - 1) / width as int
    } else {
        0
    }
}

impl RadixPlan {
    /// Number of passes.
    pub fn passes(&self) -> (r: u32)
        requires
            self.bits > 0 ==> 1 <= self.width && self.bits + self.width <= u32::MAX,
        ensures
            r == passes_for(self.bits, self.width),
    {
        if self.bits > 0 {
            (self.bits + self.width - 1) / self.width
        } else {
            0
        }
    }

    /// The plan's parts fit together, for keys of `kb` bits.
    pub open spec fn wf(&self, kb: u32) -> bool {
        &&& self.bits <= kb
        &&& self.bits > 0 ==> 1 <= self.width < 32 && self.bits <= 8 * self.width
        &&& match self.kind {
            PlanKind::Full => (self.bits == kb || self.bits == 0) && self.exact && self.assumed == u64::MAX,
            PlanKind::Shift => self.low + self.bits <= kb && self.bits > 0 && self.assumed == window(self.low as nat, self.bits as nat, kb),
            PlanKind::Pext => self.bits == ones(self.pmask) && self.assumed == self.pmask && self.bits > 0,
            PlanKind::Sub => !self.exact && self.assumed == u64::MAX && self.bits > 0,
        }
    }
}

/// The mask of `bits` bits from `low` on; all bits where that is the whole key.
pub open spec fn window(low: nat, bits: nat, kb: u32) -> u64 {
    if bits >= kb {
        u64::MAX
    } else {
        ((pow2(bits) - 1) * pow2(low)) as u64
    }
}

/// Whether `p` is to replace `best`: fewest passes first, then markedly smaller
/// tables, then exact over speculative. Smaller tables win a tie only when they
/// are at least 8x smaller; between two cache-resident sizes the extra work per
/// element costs more than they save.
pub open spec fn beats(p: RadixPlan, best: RadixPlan) -> bool {
    let pp = passes_for(p.bits, p.width);
    let pb = passes_for(best.bits, best.width);
    if pp != pb {
        pp < pb
    } else if p.width + 3 <= best.width {
        true
    } else if best.width + 3 <= p.width {
        false
    } else {
        p.exact && !best.exact
    }
}

fn better(p: RadixPlan, best: RadixPlan) -> (r: RadixPlan)
    requires
        1 <= p.width < 32,
        1 <= best.width < 32,
        p.bits <= 64,
        best.bits <= 64,
    ensures
        r == if beats(p, best) {
            p
        } else {
            best
        },
{
    let pp: u32 = p.passes();
    let pb: u32 = best.passes();
    if pp != pb {
        if pp < pb {
            return p;
        }
        return best;
    }
    if p.width + 3 <= best.width {
        return p;
    }
    if best.width + 3 <= p.width {
        return best;
    }
    if p.exact && !best.exact {
        return p;
    }
    best
}

/// The digit width of a plan: the one asked for, or else the balanced one.
pub open spec fn width_for(bits: int, m: int, max_digit: int, force_width: int) -> int {
    if force_width > 0 {
        force_width
    } else {
        balanced_width(bits, m, max_digit)
    }
}

/// What a plan is made from: the width of the keys, the bits that vary, whether
/// these are exact, the number of elements, and the digits.
pub struct PlanInput {
    pub kb: u32,
    pub est: u64,
    pub mask_exact: bool,
    pub m: int,
    pub max_digit: int,
    pub force_width: int,
}

/// What a plan is made from.
pub open spec fn input_of(kb: u32, est: u64, mask_exact: bool, m: int, max_digit: int, force_width: int) -> PlanInput {
    PlanInput { kb, est, mask_exact, m, max_digit, force_width }
}

impl PlanInput {
    /// The digit width for `bits` bits.
    pub open spec fn width(self, bits: int) -> u32 {
        width_for(bits, self.m, self.max_digit, self.force_width) as u32
    }
}

/// The raw key.
pub open spec fn full_plan(i: PlanInput) -> RadixPlan {
    RadixPlan { kind: PlanKind::Full, bits: i.kb, width: i.width(i.kb as int), low: 0, pmask: 0, base: 0, assumed: u64::MAX, exact: true }
}

/// The bits from the lowest to the highest that varies.
pub open spec fn shift_plan(i: PlanInput) -> RadixPlan {
    let low = low_bit(i.est as int);
    let bits = log2_of(i.est as int) - low + 1;
    RadixPlan {
        kind: PlanKind::Shift,
        bits: bits as u32,
        width: i.width(bits),
        low: low as u32,
        pmask: 0,
        base: 0,
        assumed: window(low as nat, bits as nat, i.kb),
        exact: i.mask_exact,
    }
}

/// The bits that vary.
pub open spec fn pext_plan(i: PlanInput) -> RadixPlan {
    RadixPlan { kind: PlanKind::Pext, bits: ones(i.est) as u32, width: i.width(ones(i.est) as int), low: 0, pmask: i.est, base: 0, assumed: i.est, exact: i.mask_exact }
}

/// The largest key of `kb` bits.
pub open spec fn largest_key(kb: u32) -> int {
    if kb == 32 {
        0xFFFF_FFFF
    } else {
        u64::MAX as int
    }
}

/// The distance from a base: the range `lo` to `hi` is widened by itself on both
/// sides.
pub open spec fn sub_plan(i: PlanInput, lo: int, hi: int) -> RadixPlan {
    let base = if lo < hi - lo {
        0
    } else {
        lo - (hi - lo)
    };
    let top = if hi + (hi - lo) > largest_key(i.kb) {
        largest_key(i.kb)
    } else {
        hi + (hi - lo)
    };
    let bits = log2_of(top - base) + 1;
    RadixPlan { kind: PlanKind::Sub, bits: bits as u32, width: i.width(bits), low: 0, pmask: 0, base: base as u64, assumed: u64::MAX, exact: false }
}

/// The better of two plans; the one held stays where neither is.
pub open spec fn better_of(p: RadixPlan, best: RadixPlan) -> RadixPlan {
    if beats(p, best) {
        p
    } else {
        best
    }
}

/// The plan that comes out best when the candidates are taken in turn: the raw
/// key, the range of bits and the bits that vary, and the distance from a base.
pub open spec fn best_plan(i: PlanInput, allow_pext: bool, have_range: bool, lo: int, hi: int) -> RadixPlan {
    let full = full_plan(i);
    let shift = if i.est != 0 {
        better_of(shift_plan(i), full)
    } else {
        full
    };
    let pext = if i.est != 0 && allow_pext {
        better_of(pext_plan(i), shift)
    } else {
        shift
    };
    if have_range && hi > lo {
        better_of(sub_plan(i, lo, hi), pext)
    } else {
        pext
    }
}

/// No candidate takes fewer passes than the plan that comes out best.
pub proof fn best_plan_has_fewest_passes(i: PlanInput, allow_pext: bool, have_range: bool, lo: int, hi: int)
    ensures
        ({
            let r = best_plan(i, allow_pext, have_range, lo, hi);
            let n = passes_for(r.bits, r.width);
            &&& n <= passes_for(full_plan(i).bits, full_plan(i).width)
            &&& i.est != 0 ==> n <= passes_for(shift_plan(i).bits, shift_plan(i).width)
            &&& i.est != 0 && allow_pext ==> n <= passes_for(pext_plan(i).bits, pext_plan(i).width)
            &&& have_range && hi > lo ==> n <= passes_for(sub_plan(i, lo, hi).bits, sub_plan(i, lo, hi).width)
        }),
{
}

/// The widest digit that a plan may have.
pub open spec fn widest(max_digit: u32, force_width: u32) -> u32 {
    if force_width > 0 {
        force_width
    } else {
        max_digit
    }
}

fn plan_width(bits: u32, m: usize, max_digit: u32, force_width: u32) -> (r: u32)
    requires
        8 <= max_digit < 32,
        1 <= bits <= 64,
        force_width == 0 || 8 <= force_width < 32,
    ensures
        1 <= r < 32,
        bits <= 8 * r,
        r <= widest(max_digit, force_width),
        r == width_for(bits as int, m as int, max_digit as int, force_width as int),
{
    if force_width > 0 {
        force_width
    } else {
        digit_width(bits, m, max_digit)
    }
}

/// `k` has bits only from `low` on, `bits` of them.
proof fn lemma_window_covers(k: u64, low: u32, high: u32, kb: u32)
    requires
        low <= high < 64,
        kb == 32 || kb == 64,
        high < kb,
        k as int % pow2(low as nat) as int == 0,
        k < pow2((high + 1) as nat),
    ensures
        k & !window(low as nat, (high - low + 1) as nat, kb) == 0,
        high - low + 1 < kb ==> window(low as nat, (high - low + 1) as nat, kb) == (((1u64 << ((high - low + 1) as u32)) - 1) as u64) << low,
{
    let bits = (high - low + 1) as u32;
    if bits >= kb {
        assert(k & !u64::MAX == 0) by (bit_vector);
    } else {
        lemma_pow2_fits(bits as nat);
        lemma_one_shl(bits);
        let ones_part: u64 = ((1u64 << bits) - 1) as u64;
        let low64: u64 = low as u64;
        assert(ones_part == pow2(bits as nat) - 1);
        vstd::arithmetic::power2::lemma_pow2_adds(bits as nat, low as nat);
        lemma_pow2_pos(low as nat);
        lemma_pow2_le((high + 1) as nat, 64);
        vstd::arithmetic::power2::lemma2_to64_rest();
        let pl = pow2(low as nat) as int;
        let pb = pow2(bits as nat) as int;
        assert((pb - 1) * pl == pb * pl - pl) by (nonlinear_arith);
        vstd::bits::lemma_u64_shl_is_mul(ones_part, low64);
        assert((ones_part << low64) == (ones_part << low)) by (bit_vector)
            requires
                low64 == low as u64,
                low < 64,
        ;
        let q: u64 = k >> low;
        crate::bits::lemma_shr_is_div(k, low);
        assert(q < pow2(bits as nat)) by {
            vstd::arithmetic::div_mod::lemma_fundamental_div_mod(k as int, pl);
            assert(q as int * pl < pb * pl) by (nonlinear_arith)
                requires
                    k as int == pl * q as int,
                    (k as int) < pb * pl,
            ;
            assert((q as int) < pb) by (nonlinear_arith)
                requires
                    q as int * pl < pb * pl,
                    pl > 0,
            ;
        }
        vstd::arithmetic::div_mod::lemma_fundamental_div_mod(k as int, pl);
        assert(q as int * pl == pl * q as int) by (nonlinear_arith);
        vstd::bits::lemma_u64_shl_is_mul(q, low64);
        assert(k == q << low64);
        assert(k & !(ones_part << low64) == 0) by (bit_vector)
            requires
                k == q << low64,
                q <= ones_part,
                ones_part == sub_one(1u64 << bits),
                bits < 64,
        ;
    }
}

spec fn sub_one(x: u64) -> u64 {
    (x - 1) as u64
}

/// The plan of the range of bits that vary.
fn shift_candidate<K: RadixKey>(est: K, mask_exact: bool, m: usize, max_digit: u32, force_width: u32) -> (p: RadixPlan)
    requires
        est.word() != 0,
        8 <= max_digit < 32,
        force_width == 0 || 8 <= force_width < 32,
    ensures
        p == shift_plan(input_of(K::BITS, est.word(), mask_exact, m as int, max_digit as int, force_width as int)),
        p.wf(K::BITS),
        p.width <= widest(max_digit, force_width),
        est.word() & !p.assumed == 0,
{
    let kb: u32 = K::BITS;
    let e: u64 = est.to_u64();
    let low: u32 = est.trailing_zeros();
    let high: u32 = highest_bit(est);
    proof {
        est.word_fits();
        lemma_low_high(e, low, high);
        lemma_low_bit(e as int, low as nat);
        lemma_window_covers(e, low, high, kb);
    }
    let bits: u32 = high - low + 1;
    let assumed: u64 = if bits >= kb {
        u64::MAX
    } else {
        proof {
            lemma_one_shl(bits);
            lemma_pow2_fits(bits as nat);
        }
        ((1u64 << bits) - 1) << low
    };
    RadixPlan {
        kind: PlanKind::Shift,
        bits,
        width: plan_width(bits, m, max_digit, force_width),
        low,
        pmask: 0,
        base: 0,
        assumed,
        exact: mask_exact,
    }
}

/// The plan of the bits that vary.
fn pext_candidate<K: RadixKey>(est: K, mask_exact: bool, m: usize, max_digit: u32, force_width: u32) -> (p: RadixPlan)
    requires
        est.word() != 0,
        8 <= max_digit < 32,
        force_width == 0 || 8 <= force_width < 32,
    ensures
        p == pext_plan(input_of(K::BITS, est.word(), mask_exact, m as int, max_digit as int, force_width as int)),
        p.wf(K::BITS),
        p.width <= widest(max_digit, force_width),
        est.word() & !p.assumed == 0,
{
    let e: u64 = est.to_u64();
    let c: u32 = est.count_ones();
    proof {
        est.word_fits();
        crate::bits::lemma_pext_step(e, e);
        assert(e & !e == 0) by (bit_vector);
    }
    RadixPlan {
        kind: PlanKind::Pext,
        bits: c,
        width: plan_width(c, m, max_digit, force_width),
        low: 0,
        pmask: e,
        base: 0,
        assumed: e,
        exact: mask_exact,
    }
}

/// The plan of the distance from a base, for sampled keys from `lo` to `hi`.
fn sub_candidate<K: RadixKey>(lo: u64, hi: u64, m: usize, max_digit: u32, force_width: u32, Ghost(input): Ghost<PlanInput>) -> (p: RadixPlan)
    requires
        lo < hi <= largest_key(K::BITS),
        8 <= max_digit < 32,
        force_width == 0 || 8 <= force_width < 32,
        K::BITS == 32 || K::BITS == 64,
        input.kb == K::BITS && input.m == m && input.max_digit == max_digit && input.force_width == force_width,
    ensures
        p == sub_plan(input, lo as int, hi as int),
        p.wf(K::BITS),
        p.width <= widest(max_digit, force_width),
{
    let kb: u32 = K::BITS;
    let most: u64 = if kb == 32 {
        0xFFFF_FFFF
    } else {
        u64::MAX
    };
    let r: u64 = hi - lo;
    let base: u64 = if lo < r {
        0
    } else {
        lo - r
    };
    let top: u64 = if hi > most - r {
        most
    } else {
        hi + r
    };
    let span: K = K::from_u64(top - base);
    proof {
        assert(truncated((top - base) as u64, kb) == top - base);
    }
    let bits: u32 = highest_bit(span) + 1;
    RadixPlan {
        kind: PlanKind::Sub,
        bits,
        width: plan_width(bits, m, max_digit, force_width),
        low: 0,
        pmask: 0,
        base,
        assumed: u64::MAX,
        exact: false,
    }
}

/// The plan for `m` keys whose varying bits are `est`.
#[verifier::opaque]
pub open spec fn plan_of<K: RadixKey>(est: u64, mask_exact: bool, have_range: bool, rmin: u64, rmax: u64, m: int, max_digit: u32, force_width: u32, allow_pext: bool) -> RadixPlan {
    if mask_exact && truncated(est, K::BITS) == 0 {
        RadixPlan { kind: PlanKind::Full, bits: 0, width: 1, low: 0, pmask: 0, base: 0, assumed: u64::MAX, exact: true }
    } else {
        best_plan(
            input_of(K::BITS, truncated(est, K::BITS), mask_exact, m, max_digit as int, force_width as int),
            allow_pext,
            have_range && rmax > rmin,
            truncated(rmin, K::BITS) as int,
            truncated(rmax, K::BITS) as int,
        )
    }
}

/// The cheapest plan for a range of `m` elements whose varying bits are `est64`
/// (exact if `mask_exact`, else the best estimate so far), optionally with a
/// sampled key range. The sampled range is widened by itself on both sides, so
/// an unsampled key outside it is rare; if one turns up anyway the histogram
/// pass catches it and the exact plan takes over.
pub fn choose_plan<K: RadixKey>(est64: u64, mask_exact: bool, have_range: bool, rmin: u64, rmax: u64, m: usize, max_digit: u32, force_width: u32, allow_pext: bool) -> (r: RadixPlan)
    requires
        8 <= max_digit < 32,
        force_width == 0 || 8 <= force_width < 32,
    ensures
        r.wf(K::BITS),
        r.width <= widest(max_digit, force_width),
        r.bits == 0 <==> mask_exact && truncated(est64, K::BITS) == 0,
        r.exact && !mask_exact ==> r.kind is Full,
        mask_exact && r.kind !is Sub ==> truncated(est64, K::BITS) & !r.assumed == 0,
        mask_exact && !have_range ==> r.exact,
        mask_exact && r.kind !is Sub ==> r.exact,
        r == plan_of::<K>(est64, mask_exact, have_range, rmin, rmax, m as int, max_digit, force_width, allow_pext),
{
    let kb: u32 = K::BITS;
    let est: K = K::from_u64(est64);
    let e: u64 = est.to_u64();
    let ghost input = input_of(kb, e, mask_exact, m as int, max_digit as int, force_width as int);
    proof {
        reveal(plan_of);
        est.word_fits();
        assert(e & !u64::MAX == 0) by (bit_vector);
    }
    if mask_exact && e == 0 {
        return RadixPlan { kind: PlanKind::Full, bits: 0, width: 1, low: 0, pmask: 0, base: 0, assumed: u64::MAX, exact: true };
    }
    let mut best = RadixPlan {
        kind: PlanKind::Full,
        bits: kb,
        width: plan_width(kb, m, max_digit, force_width),
        low: 0,
        pmask: 0,
        base: 0,
        assumed: u64::MAX,
        exact: true,
    };
    assert(best == full_plan(input));
    if e != 0 {
        best = better(shift_candidate(est, mask_exact, m, max_digit, force_width), best);
        if allow_pext {
            best = better(pext_candidate(est, mask_exact, m, max_digit, force_width), best);
        }
    }
    if have_range && rmax > rmin {
        let lo: u64 = K::from_u64(rmin).to_u64();
        let hi: u64 = K::from_u64(rmax).to_u64();
        if hi > lo {
            best = better(sub_candidate::<K>(lo, hi, m, max_digit, force_width, Ghost(input)), best);
        }
    }
    best
}

/// The lowest set bit is not above the highest.
proof fn lemma_low_high(e: u64, low: u32, high: u32)
    requires
        e != 0,
        low <= 64,
        e as int % pow2(low as nat) as int == 0,
        e < pow2((high + 1) as nat),
    ensures
        low <= high,
{
    if low > high {
        lemma_pow2_le((high + 1) as nat, low as nat);
        vstd::arithmetic::div_mod::lemma_small_mod(e as nat, pow2(low as nat));
    }
}

} // verus!
