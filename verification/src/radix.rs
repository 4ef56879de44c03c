//! The stable least-significant-digit radix core: digit plans, key functions,
//! prefix sums and the fused scatter passes.
use crate::bits::{
    agree_outside, digit, lemma_digit, lemma_digit_split, lemma_one_shl, lemma_pow2_32,
    lemma_pow2_fits, lemma_pow2_le, pext,
};
use crate::gather::{
    bucket, counted, digits_below, gathered, lemma_count_permutation, lemma_count_start,
    lemma_count_step, lemma_gathered_sort, lemma_scatter_done, lemma_scatter_step, lemma_slot,
    lemma_start_monotone, lemma_sum_start, positioned, scattered, start, sum_below,
};
use crate::order::{
    by_key, lemma_by_key_total, lemma_orders_agree, lemma_permutation_member,
    lemma_stable_sort_then, lemma_then_by_total, permutation, stable_sort_of, then_by,
};
use crate::view::{
    after_copies, keeps_record, note_copies, note_key, pext_soft, table_note, Elem, Hooks, Note,
    RadixKey, Stat,
};
use vstd::arithmetic::power2::pow2;
use vstd::prelude::*;

verus! {

/// 64-bit keys with 8-bit digits.
pub const MAX_PASSES: usize = 8;

/// The digits of a radix sort: shifts and widths, low digit first.
#[derive(Clone, Copy, Debug)]
pub struct DigitPlan {
    /// Number of digits.
    pub passes: usize,
    /// Shift of each digit.
    pub shift: [u32; 8],
    /// Width of each digit.
    pub bits: [u32; 8],
    /// The widest digit.
    pub max_bits: u32,
}

impl DigitPlan {
    /// The digits cover the low `total` bits, one behind the other.
    pub open spec fn covers(&self, total: nat) -> bool {
        &&& self.passes <= MAX_PASSES
        &&& self.max_bits < 32
        &&& forall|p: int| 0 <= p < self.passes ==> 1 <= #[trigger] self.bits[p] <= self.max_bits && self.shift[p] + self.bits[p] <= 64
        &&& forall|p: int| 0 <= p < self.passes ==> (#[trigger] self.shift[p]) as int == self.edge(p)
        &&& self.edge(self.passes as int) == total
    }

    /// Where digit `p` begins: the sum of the widths below it.
    pub open spec fn edge(&self, p: int) -> int
        decreases p,
    {
        if p <= 0 {
            0
        } else {
            self.edge(p - 1) + self.bits[p - 1]
        }
    }

    /// Entries of a count table: 2^max_bits.
    pub fn width(&self) -> (r: usize)
        requires
            self.max_bits < 32,
        ensures
            r == pow2(self.max_bits as nat),
    {
        proof {
            lemma_one_shl(self.max_bits);
            lemma_pow2_32();
            vstd::arithmetic::power2::lemma_pow2_strictly_increases(self.max_bits as nat, 32);
        }
        (1u64 << self.max_bits) as usize
    }
}

/// The fewest digits of at most `width` bits that cover `total` bits, as even as
/// can be.
pub open spec fn made(d: DigitPlan, total: int, width: int) -> bool {
    let k = d.passes as int;
    &&& d.covers(total as nat)
    &&& total == 0 ==> k == 0
    &&& total > 0 ==> k == (total + width - 1) / width && d.max_bits == d.bits[0]
    &&& forall|p: int|
        0 <= p < k ==> #[trigger] d.bits[p] == total / k + if p < total % k {
            1int
        } else {
            0int
        }
}

/// Two such plans have the same digits.
pub proof fn lemma_made_alike(d: DigitPlan, e: DigitPlan, total: int, width: int)
    requires
        made(d, total, width),
        made(e, total, width),
        total >= 0,
    ensures
        d.passes == e.passes,
        total > 0 && d.passes > 0 ==> d.max_bits == e.max_bits,
        forall|p: int| 0 <= p < d.passes ==> #[trigger] d.bits[p] == e.bits[p],
        forall|p: int| 0 <= p < d.passes ==> #[trigger] d.shift[p] == e.shift[p],
{
    assert forall|p: int| 0 <= p < d.passes implies #[trigger] d.bits[p] == e.bits[p] by {
        assert(e.bits[p] == e.bits[p]);
    }
    assert forall|p: int| 0 <= p < d.passes implies #[trigger] d.shift[p] == e.shift[p] by {
        lemma_edge_same(d, e, p);
        assert(e.shift[p] as int == e.edge(p));
    }
    if d.passes > 0 {
        assert(d.bits[0] == e.bits[0]);
    }
}

/// Splits `total_bits` into the fewest digits of at most `max_digit_bits`, as
/// evenly as possible (32 bits / 11 -> 11,11,10; 20 / 11 -> 10,10).
pub fn make_plan(total_bits: u32, max_digit_bits: u32) -> (r: DigitPlan)
    requires
        1 <= max_digit_bits < 32,
        total_bits <= 64,
        total_bits <= 8 * max_digit_bits,
    ensures
        r.covers(total_bits as nat),
        r.max_bits <= max_digit_bits,
        made(r, total_bits as int, max_digit_bits as int),
        total_bits == 0 ==> r.passes == 0,
        total_bits > 0 ==> r.passes == (total_bits + max_digit_bits - 1) / max_digit_bits as int,
        forall|p: int|
            0 <= p < r.passes ==> #[trigger] r.bits[p] == total_bits / r.passes as u32 + if p < total_bits % r.passes as u32 {
                1int
            } else {
                0int
            },
{
    let mut plan = DigitPlan { passes: 0, shift: [0u32; 8], bits: [0u32; 8], max_bits: 0 };
    if total_bits == 0 {
        return plan;
    }
    let passes: u32 = (total_bits + max_digit_bits - 1) / max_digit_bits;
    proof {
        let t = total_bits as int;
        let m = max_digit_bits as int;
        let k = passes as int;
        assert(1 <= k <= 8 && k * m >= t && k <= t) by (nonlinear_arith)
            requires
                k == (t + m - 1) / m,
                1 <= m,
                1 <= t <= 8 * m,
        ;
        assert(t / k <= m && (t % k > 0 ==> t / k < m) && t / k >= 1) by (nonlinear_arith)
            requires
                1 <= k,
                k * m >= t,
                k <= t,
        ;
    }
    let base: u32 = total_bits / passes;
    let extra: u32 = total_bits % passes;
    plan.passes = passes as usize;
    let mut sh: u32 = 0;
    let mut i: usize = 0;
    proof {
        vstd::arithmetic::div_mod::lemma_fundamental_div_mod(total_bits as int, passes as int);
    }
    while i < plan.passes
        invariant
            i <= plan.passes <= 8,
            plan.passes == passes,
            base == total_bits / passes,
            extra == total_bits % passes,
            extra < passes,
            total_bits <= 64,
            total_bits == passes * base + extra,
            1 <= base <= max_digit_bits < 32,
            extra > 0 ==> base < max_digit_bits,
            plan.max_bits <= max_digit_bits,
            i == 0 ==> plan.max_bits == 0,
            i > 0 ==> plan.max_bits == plan.bits[0],
            sh == base * i + if i < extra {
                i as int
            } else {
                extra as int
            },
            forall|p: int|
                0 <= p < i ==> #[trigger] plan.bits[p] == base + if p < extra {
                    1int
                } else {
                    0int
                },
            forall|p: int| 0 <= p < i ==> 1 <= #[trigger] plan.bits[p] <= plan.max_bits && plan.shift[p] + plan.bits[p] <= 64,
            forall|p: int| 0 <= p < i ==> (#[trigger] plan.shift[p]) as int == plan.edge(p),
            plan.edge(i as int) == sh,
        decreases plan.passes - i,
    {
        let b: u32 = base + if (i as u32) < extra {
            1
        } else {
            0
        };
        proof {
            assert(base * (i + 1) == base * i + base) by (nonlinear_arith);
            assert(base * (i + 1) <= base * passes) by (nonlinear_arith)
                requires
                    i + 1 <= passes,
            ;
            assert(base * passes == passes * base) by (nonlinear_arith);
        }
        let ghost before = plan;
        plan.bits[i] = b;
        plan.shift[i] = sh;
        proof {
            lemma_edge_same(before, plan, i as int);
        }
        let ghost mid = plan;
        sh += b;
        if b > plan.max_bits {
            plan.max_bits = b;
        }
        proof {
            lemma_edge_same(mid, plan, i as int);
            assert forall|p: int| 0 <= p < i implies (#[trigger] plan.shift[p]) as int == plan.edge(p) by {
                assert(before.shift[p] as int == before.edge(p));
                lemma_edge_same(before, plan, p);
            }
            assert forall|p: int| 0 <= p < i implies 1 <= #[trigger] plan.bits[p] <= plan.max_bits && plan.shift[p] + plan.bits[p] <= 64 by {
                assert(1 <= before.bits[p] <= before.max_bits);
            }
        }
        i += 1;
    }
    proof {
        assert(base * passes == passes * base) by (nonlinear_arith);
    }
    plan
}

proof fn lemma_edge_same(a: DigitPlan, b: DigitPlan, p: int)
    requires
        forall|q: int| 0 <= q < p ==> a.bits[q] == b.bits[q],
    ensures
        a.edge(p) == b.edge(p),
    decreases p,
{
    if p > 0 {
        lemma_edge_same(a, b, p - 1);
    }
}

proof fn lemma_edge_monotone(plan: DigitPlan, p: int, q: int)
    requires
        0 <= p <= q,
    ensures
        plan.edge(p) <= plan.edge(q),
        0 <= plan.edge(p),
    decreases q,
{
    if p < q {
        lemma_edge_monotone(plan, p, q - 1);
    } else if q > 0 {
        lemma_edge_monotone(plan, p - 1, q - 1);
    }
}

// ---- key functions -----------------------------------------------------------------------------

/// A key function: element to unsigned key for one chunk. It also maps a radix
/// key that is already there, so a caller that needs that key as well computes
/// it once.
pub trait KeyFn<T: Elem>: Copy {
    /// The chunk that is read.
    spec fn at(&self) -> int;

    /// The key from the raw radix key.
    spec fn image(&self, k: u64) -> u64;

    /// The key of an element.
    fn key(&self, x: T) -> (r: u64)
        requires
            0 <= self.at() < x.chunks().len(),
        ensures
            r == self.image(x.chunks()[self.at()]),
    ;

    /// The chunk that is read.
    fn chunk(&self) -> (r: u64)
        ensures
            r == self.at(),
    ;

    /// The key from the raw radix key.
    fn raw(&self, k: u64) -> (r: u64)
        ensures
            r == self.image(k),
    ;
}

/// The full radix key.
#[derive(Clone, Copy)]
pub struct FullKey {
    /// The chunk.
    pub chunk: u64,
}

impl<T: Elem> KeyFn<T> for FullKey {
    open spec fn at(&self) -> int {
        self.chunk as int
    }

    open spec fn image(&self, k: u64) -> u64 {
        k
    }

    fn key(&self, x: T) -> (r: u64) {
        T::radix_key(x, self.chunk).to_u64()
    }

    fn chunk(&self) -> (r: u64) {
        self.chunk
    }

    fn raw(&self, k: u64) -> (r: u64) {
        k
    }
}

/// The contiguous varying-bit range, shifted down.
#[derive(Clone, Copy)]
pub struct ShiftKey {
    /// The chunk.
    pub chunk: u64,
    /// Bits below `low` are constant.
    pub low: u32,
}

/// `k` without its bits below `low`.
pub open spec fn shifted(k: u64, low: u32) -> u64 {
    if low < 64 {
        k >> low
    } else {
        0
    }
}

impl<T: Elem> KeyFn<T> for ShiftKey {
    open spec fn at(&self) -> int {
        self.chunk as int
    }

    open spec fn image(&self, k: u64) -> u64 {
        shifted(k, self.low)
    }

    fn key(&self, x: T) -> (r: u64) {
        let k: u64 = T::radix_key(x, self.chunk).to_u64();
        if self.low < 64 {
            k >> self.low
        } else {
            0
        }
    }

    fn chunk(&self) -> (r: u64) {
        self.chunk
    }

    fn raw(&self, k: u64) -> (r: u64) {
        if self.low < 64 {
            k >> self.low
        } else {
            0
        }
    }
}

/// Only the varying bits, compressed to the bottom.
#[derive(Clone, Copy)]
pub struct PextKeySoft {
    /// The chunk.
    pub chunk: u64,
    /// The varying bits.
    pub mask: u64,
}

impl<T: Elem> KeyFn<T> for PextKeySoft {
    open spec fn at(&self) -> int {
        self.chunk as int
    }

    open spec fn image(&self, k: u64) -> u64 {
        pext(k, self.mask) as u64
    }

    fn key(&self, x: T) -> (r: u64) {
        pext_soft(T::radix_key(x, self.chunk).to_u64(), self.mask)
    }

    fn chunk(&self) -> (r: u64) {
        self.chunk
    }

    fn raw(&self, k: u64) -> (r: u64) {
        pext_soft(k, self.mask)
    }
}

/// Key minus a base (a narrow range that straddles a power of two).
#[derive(Clone, Copy)]
pub struct SubKey {
    /// The chunk.
    pub chunk: u64,
    /// The base.
    pub base: u64,
}

impl<T: Elem> KeyFn<T> for SubKey {
    open spec fn at(&self) -> int {
        self.chunk as int
    }

    open spec fn image(&self, k: u64) -> u64 {
        k.wrapping_sub(self.base)
    }

    fn key(&self, x: T) -> (r: u64) {
        T::radix_key(x, self.chunk).to_u64().wrapping_sub(self.base)
    }

    fn chunk(&self) -> (r: u64) {
        self.chunk
    }

    fn raw(&self, k: u64) -> (r: u64) {
        k.wrapping_sub(self.base)
    }
}

/// Every element has the chunk that the key function reads.
pub open spec fn readable<T: Elem, F: KeyFn<T>>(f: F, s: Seq<T>) -> bool {
    &&& 0 <= f.at()
    &&& forall|i: int| 0 <= i < s.len() ==> f.at() < (#[trigger] s[i]).chunks().len()
}

/// The key of an element as the key function gives it.
pub open spec fn image_of<T: Elem, F: KeyFn<T>>(f: F, x: T) -> u64 {
    f.image(x.chunks()[f.at()])
}

/// The digit of `w` bits above bit `s` of the key.
pub open spec fn digit_of<T: Elem, F: KeyFn<T>>(f: F, s: nat, w: nat) -> spec_fn(T) -> int {
    |x: T| digit(image_of(f, x), s, w) as int
}

/// The low `s` bits of the key.
pub open spec fn low_of<T: Elem, F: KeyFn<T>>(f: F, s: nat) -> spec_fn(T) -> int {
    |x: T| (image_of(f, x) as nat % pow2(s)) as int
}

/// The whole key.
pub open spec fn whole_of<T: Elem, F: KeyFn<T>>(f: F) -> spec_fn(T) -> int {
    |x: T| image_of(f, x) as int
}

pub proof fn lemma_readable_permutation<T: Elem, F: KeyFn<T>>(f: F, a: Seq<T>, b: Seq<T>)
    requires
        readable(f, a),
        permutation(a, b),
    ensures
        readable(f, b),
{
    assert forall|i: int| 0 <= i < b.len() implies f.at() < (#[trigger] b[i]).chunks().len() by {
        let j = lemma_permutation_member(b, a, i);
    }
}

// ---- tables --------------------------------------------------------------------------------------

/// Exclusive prefix sums of the first `n` entries in place.
pub fn prefix_scalar(h: &mut [u32], n: usize)
    requires
        n <= old(h)@.len(),
    ensures
        final(h)@.len() == old(h)@.len(),
        forall|b: int| 0 <= b < n ==> (#[trigger] final(h)@[b]) as int == sum_below(old(h)@, b as nat) % 0x1_0000_0000,
        forall|b: int| n <= b < old(h)@.len() ==> final(h)@[b] == old(h)@[b],
{
    let ghost o = h@;
    let mut sum: u32 = 0;
    let mut b: usize = 0;
    while b < n
        invariant
            b <= n <= o.len(),
            h@.len() == o.len(),
            sum as int == sum_below(o, b as nat) % 0x1_0000_0000,
            forall|c: int| 0 <= c < b ==> (#[trigger] h@[c]) as int == sum_below(o, c as nat) % 0x1_0000_0000,
            forall|c: int| b <= c < o.len() ==> h@[c] == o[c],
        decreases n - b,
    {
        let c: u32 = h[b];
        h[b] = sum;
        sum = sum.wrapping_add(c);
        b += 1;
    }
}

/// Exclusive prefix sums of the first `n` entries in place.
pub fn prefix_sums(h: &mut [u32], n: usize)
    requires
        n <= old(h)@.len(),
    ensures
        final(h)@.len() == old(h)@.len(),
        forall|b: int| 0 <= b < n ==> (#[trigger] final(h)@[b]) as int == sum_below(old(h)@, b as nat) % 0x1_0000_0000,
        forall|b: int| n <= b < old(h)@.len() ==> final(h)@[b] == old(h)@[b],
{
    prefix_scalar(h, n);
}

/// Digit `p` of the plan varies under the key mask.
pub open spec fn is_live(plan: DigitPlan, keymask: u64, p: int) -> bool {
    digit(keymask, plan.shift[p] as nat, plan.bits[p] as nat) != 0
}

/// `order` lists the digits that vary, low digit first.
pub open spec fn lists_live(plan: DigitPlan, keymask: u64, order: Seq<usize>, live: int) -> bool {
    &&& 0 <= live <= plan.passes
    &&& forall|q: int| 0 <= q < live ==> (#[trigger] order[q]) < plan.passes && is_live(plan, keymask, order[q] as int)
    &&& forall|q: int, r: int| 0 <= q < r < live ==> #[trigger] order[q] < #[trigger] order[r]
    &&& forall|p: int| 0 <= p < plan.passes && #[trigger] is_live(plan, keymask, p) ==> exists|q: int| 0 <= q < live && order[q] == p
}

/// The digits before `p` that vary, low digit first.
pub open spec fn live_to(plan: DigitPlan, mask: u64, p: int) -> Seq<int>
    decreases p,
{
    if p <= 0 {
        Seq::empty()
    } else if is_live(plan, mask, p - 1) {
        live_to(plan, mask, p - 1).push(p - 1)
    } else {
        live_to(plan, mask, p - 1)
    }
}

/// The first `live` entries of a list of digits.
pub open spec fn listed(order: Seq<usize>, live: int) -> Seq<int> {
    order.take(live).map_values(|x: usize| x as int)
}

/// The live passes of a plan for a key mask: passes whose digit varies.
/// Returns how many; `order` receives their indices.
pub fn live_passes(plan: &DigitPlan, keymask: u64, order: &mut [usize; 8]) -> (r: usize)
    requires
        exists|total: nat| total <= 64 && #[trigger] plan.covers(total),
    ensures
        lists_live(*plan, keymask, final(order)@, r as int),
        r <= plan.passes,
        listed(final(order)@, r as int) == live_to(*plan, keymask, plan.passes as int),
        forall|q: int| r <= q < 8 ==> final(order)@[q] == old(order)@[q],
{
    let mut live: usize = 0;
    let mut p: usize = 0;
    let ghost total = choose|total: nat| total <= 64 && #[trigger] plan.covers(total);
    let ghost o = order@;
    while p < plan.passes
        invariant
            plan.covers(total),
            live <= p <= plan.passes <= 8,
            o == old(order)@,
            forall|q: int| 0 <= q < live ==> (#[trigger] order@[q]) < p && is_live(*plan, keymask, order@[q] as int),
            forall|q: int, r: int| 0 <= q < r < live ==> #[trigger] order@[q] < #[trigger] order@[r],
            forall|c: int| 0 <= c < p && #[trigger] is_live(*plan, keymask, c) ==> exists|q: int| 0 <= q < live && order@[q] == c,
            forall|q: int| live <= q < 8 ==> order@[q] == o[q],
            listed(order@, live as int) == live_to(*plan, keymask, p as int),
        decreases plan.passes - p,
    {
        let w: u32 = plan.bits[p];
        let s: u32 = plan.shift[p];
        proof {
            lemma_digit(keymask, s, w);
            lemma_one_shl(w);
            lemma_pow2_fits(w as nat);
        }
        let dm: u64 = (1u64 << w) - 1;
        let ghost before = order@;
        let ghost was: int = live as int;
        if (keymask >> s) & dm != 0 {
            order[live] = p;
            live += 1;
        }
        proof {
            if live > was {
                assert(listed(order@, live as int) =~= listed(before, was).push(p as int));
            }
            assert forall|c: int| 0 <= c < p + 1 && #[trigger] is_live(*plan, keymask, c) implies exists|q: int| 0 <= q < live && order@[q] == c by {
                if c < p {
                    let q = choose|q: int| 0 <= q < was && before[q] == c;
                    assert(order@[q] == c);
                } else {
                    assert(order@[live - 1] == p);
                }
            }
        }
        p += 1;
    }
    live
}

// ---- passes --------------------------------------------------------------------------------------

/// The digit `(k >> shift) & (2^w - 1)` as a table index.
pub fn digit_at(k: u64, shift: u32, w: u32) -> (r: usize)
    requires
        shift < 64,
        w < 32,
    ensures
        r == digit(k, shift as nat, w as nat),
        r < pow2(w as nat),
{
    proof {
        lemma_digit(k, shift, w);
        lemma_one_shl(w);
        lemma_pow2_fits(w as nat);
        lemma_pow2_32();
        vstd::arithmetic::power2::lemma_pow2_strictly_increases(w as nat, 32);
    }
    ((k >> shift) & ((1u64 << w) - 1)) as usize
}

/// `2^w` as a table size.
pub fn table_size(w: u32) -> (r: usize)
    requires
        w < 32,
    ensures
        r == pow2(w as nat),
{
    proof {
        lemma_one_shl(w);
        lemma_pow2_32();
        vstd::arithmetic::power2::lemma_pow2_strictly_increases(w as nat, 32);
    }
    (1u64 << w) as usize
}

/// Zeroes the first `n` entries.
pub fn clear_table(h: &mut [u32], n: usize)
    requires
        n <= old(h)@.len(),
    ensures
        final(h)@.len() == old(h)@.len(),
        forall|b: int| 0 <= b < n ==> final(h)@[b] == 0,
        forall|b: int| n <= b < old(h)@.len() ==> final(h)@[b] == old(h)@[b],
{
    let ghost o = h@;
    let mut b: usize = 0;
    while b < n
        invariant
            b <= n <= o.len(),
            h@.len() == o.len(),
            forall|c: int| 0 <= c < b ==> h@[c] == 0,
            forall|c: int| b <= c < o.len() ==> h@[c] == o[c],
        decreases n - b,
    {
        h[b] = 0;
        b += 1;
    }
}

/// Counts turned into positions: the prefix sums of the counts of a sequence
/// are the starts of its buckets.
pub proof fn lemma_prefix_positions<T>(s: Seq<T>, d: spec_fn(T) -> int, nb: nat, h: Seq<u32>, pos: Seq<u32>)
    requires
        s.len() <= 0xFFFF_FFFF,
        digits_below(s, d, nb),
        counted(s, d, nb, s.len() as int, h),
        pos.len() == h.len(),
        forall|b: int| 0 <= b < nb ==> (#[trigger] pos[b]) as int == sum_below(h, b as nat) % 0x1_0000_0000,
    ensures
        positioned(s, d, nb, 0, pos),
{
    lemma_gathered_sort(s, d, nb);
    assert forall|b: int| 0 <= b < nb implies (#[trigger] pos[b]) as int == start(s, d, b as nat) + bucket(s.take(0), d, b).len() by {
        lemma_sum_start(s, d, nb, h, b as nat);
        lemma_start_monotone(s, d, b as nat, nb);
        assert(s.take(0) =~= Seq::<T>::empty());
        crate::order::lemma_filter_empty(crate::gather::in_bucket(d, b));
    }
}

/// The record once the first `i` elements of `s` were scattered by a table of
/// `size` entries; with `fused` the next table, of `width` entries, was counted on
/// the way.
pub open spec fn scatter_tally<T: Elem, H: Hooks>(t: H::Tally, s: Seq<T>, c: int, size: usize, fused: bool, width: usize, i: int) -> H::Tally
    decreases i,
{
    if i <= 0 {
        let swept = H::after(t, table_note(size, 4, true, true));
        if fused {
            H::after(swept, table_note(width, 4, false, true))
        } else {
            swept
        }
    } else {
        let u = scatter_tally::<T, H>(t, s, c, size, fused, width, i - 1);
        let found = H::after(H::after(H::after(u, Note::Read), Note::Key(s[i - 1].key_load(c) as u64)), table_note(1, 4, true, true));
        let next = if fused {
            H::after(found, table_note(1, 4, true, true))
        } else {
            found
        };
        H::after(next, Note::Write)
    }
}

/// The elements after the first `q` passes of the digits `order`.
pub open spec fn passed<T: Elem, F: KeyFn<T>>(s: Seq<T>, key: F, plan: DigitPlan, order: Seq<int>, q: int) -> Seq<T>
    decreases q,
{
    if q <= 0 {
        s
    } else {
        let p = order[q - 1];
        gathered(passed(s, key, plan, order, q - 1), digit_of(key, plan.shift[p] as nat, plan.bits[p] as nat), pow2(plan.bits[p] as nat))
    }
}

/// The record of the first `q` passes of the digits `order`.
pub open spec fn passes_tally<T: Elem, F: KeyFn<T>, H: Hooks>(t: H::Tally, s: Seq<T>, key: F, plan: DigitPlan, order: Seq<int>, q: int) -> H::Tally
    decreases q,
{
    if q <= 0 {
        t
    } else {
        let u = passes_tally::<T, F, H>(t, s, key, plan, order, q - 1);
        scatter_tally::<T, H>(
            H::after(u, Note::Count(Stat::RadixPasses, 1)),
            passed(s, key, plan, order, q - 1),
            key.at(),
            pow2(plan.bits[order[q - 1]] as nat) as usize,
            q < order.len(),
            pow2(plan.max_bits as nat) as usize,
            s.len() as int,
        )
    }
}

/// The passes come to the same by two plans with the same digits.
pub proof fn lemma_passes_alike<T: Elem, F: KeyFn<T>, H: Hooks>(t: H::Tally, s: Seq<T>, key: F, d: DigitPlan, e: DigitPlan, order: Seq<int>, q: int)
    requires
        d.passes == e.passes,
        d.max_bits == e.max_bits,
        forall|p: int| 0 <= p < d.passes ==> #[trigger] d.bits[p] == e.bits[p],
        forall|p: int| 0 <= p < d.passes ==> #[trigger] d.shift[p] == e.shift[p],
        forall|k: int| 0 <= k < order.len() ==> 0 <= #[trigger] order[k] < d.passes,
        q <= order.len(),
    ensures
        passed(s, key, d, order, q) == passed(s, key, e, order, q),
        passes_tally::<T, F, H>(t, s, key, d, order, q) == passes_tally::<T, F, H>(t, s, key, e, order, q),
    decreases q,
{
    if q > 0 {
        lemma_passes_alike::<T, F, H>(t, s, key, d, e, order, q - 1);
        let p = order[q - 1];
        assert(d.bits[p] == e.bits[p] && d.shift[p] == e.shift[p]);
    }
}

/// The digits that vary are the same by two plans with the same digits.
pub proof fn lemma_live_alike(d: DigitPlan, e: DigitPlan, mask: u64, p: int)
    requires
        p <= d.passes == e.passes,
        forall|p: int| 0 <= p < d.passes ==> #[trigger] d.bits[p] == e.bits[p],
        forall|p: int| 0 <= p < d.passes ==> #[trigger] d.shift[p] == e.shift[p],
    ensures
        live_to(d, mask, p) == live_to(e, mask, p),
        forall|k: int| 0 <= k < live_to(d, mask, p).len() ==> 0 <= #[trigger] live_to(d, mask, p)[k] < p,
        p >= 0 ==> live_to(d, mask, p).len() <= p,
    decreases p,
{
    if p > 0 {
        lemma_live_alike(d, e, mask, p - 1);
        assert(d.bits[p - 1] == e.bits[p - 1] && d.shift[p - 1] == e.shift[p - 1]);
    }
}

/// The record once the result was moved where it is wanted.
pub open spec fn moved_tally<H: Hooks>(t: H::Tally, n: int, in_src: bool, result_in_src: bool, free: bool) -> H::Tally {
    if !free && in_src != result_in_src {
        after_copies::<H>(t, n)
    } else {
        t
    }
}

/// One scatter pass of `s` into `d` by the digit of `w` bits above `shift`.
/// `tab` holds the counts of that digit; with `fused` the counts of the digit
/// of `w2` bits above `shift2` are built in the first `width` entries of `next`
/// on the way.
pub fn scatter_pass<T: Elem, F: KeyFn<T>, H: Hooks>(
    s: &[T],
    d: &mut [T],
    key: F,
    shift: u32,
    w: u32,
    tab: &mut [u32],
    next: &mut [u32],
    fused: bool,
    shift2: u32,
    w2: u32,
    width: usize,
    hooks: &mut H,
)
    requires
        s@.len() <= 0xFFFF_FFFF,
        old(d)@.len() == s@.len(),
        readable(key, s@),
        shift < 64,
        w < 32,
        pow2(w as nat) <= old(tab)@.len(),
        counted(s@, digit_of(key, shift as nat, w as nat), pow2(w as nat), s@.len() as int, old(tab)@),
        fused ==> shift2 < 64 && w2 < 32 && pow2(w2 as nat) <= old(next)@.len(),
    ensures
        keeps_record(*old(hooks), *final(hooks)),
        H::records() ==> final(hooks).tally() == scatter_tally::<T, H>(old(hooks).tally(), s@, key.at(), pow2(w as nat) as usize, fused, width, s@.len() as int),
        final(d)@ == gathered(s@, digit_of(key, shift as nat, w as nat), pow2(w as nat)),
        stable_sort_of(by_key(digit_of(key, shift as nat, w as nat)), s@, final(d)@),
        final(d)@.len() == s@.len(),
        positioned(s@, digit_of(key, shift as nat, w as nat), pow2(w as nat), s@.len() as int, final(tab)@),
        fused ==> counted(final(d)@, digit_of(key, shift2 as nat, w2 as nat), pow2(w2 as nat), s@.len() as int, final(next)@),
        final(tab)@.len() == old(tab)@.len(),
        final(next)@.len() == old(next)@.len(),
{
    let n: usize = s.len();
    let ghost dg = digit_of::<T, F>(key, shift as nat, w as nat);
    let ghost dg2 = digit_of::<T, F>(key, shift2 as nat, w2 as nat);
    let ghost nb = pow2(w as nat);
    let ghost nb2 = pow2(w2 as nat);
    let ghost counts = tab@;
    assert forall|i: int| 0 <= i < s@.len() implies 0 <= dg(#[trigger] s@[i]) < nb by {
        lemma_digit(image_of(key, s@[i]), shift, w);
    }
    assert forall|i: int| fused && 0 <= i < s@.len() implies 0 <= dg2(#[trigger] s@[i]) < nb2 by {
        lemma_digit(image_of(key, s@[i]), shift2, w2);
    }
    let size: usize = table_size(w);
    hooks.on_table_sweep(&*tab, size, 4, true, true);
    prefix_sums(tab, size);
    proof {
        lemma_prefix_positions(s@, dg, nb, counts, tab@);
        assert(s@.take(0) =~= Seq::<T>::empty());
        assert(scattered(s@, dg, nb, 0, d@)) by {
            assert forall|b: int, k: int| 0 <= b < nb && 0 <= k < bucket(s@.take(0), dg, b).len() implies d@[start(s@, dg, b as nat) + k] == #[trigger] bucket(s@.take(0), dg, b)[k] by {
                crate::order::lemma_filter_empty(crate::gather::in_bucket(dg, b));
            }
        }
    }
    if fused {
        let size2: usize = table_size(w2);
        clear_table(next, size2);
        hooks.on_table_sweep(&*next, width, 4, false, true);
        proof {
            lemma_count_start(s@, dg2, nb2, next@);
        }
    }
    let mut i: usize = 0;
    while i < n
        invariant
            keeps_record(*old(hooks), *hooks),
            H::records() ==> hooks.tally() == scatter_tally::<T, H>(old(hooks).tally(), s@, key.at(), pow2(w as nat) as usize, fused, width, i as int),
            i <= n == s@.len(),
            n <= 0xFFFF_FFFF,
            d@.len() == n,
            readable(key, s@),
            shift < 64,
            w < 32,
            fused ==> shift2 < 64 && w2 < 32,
            dg == digit_of::<T, F>(key, shift as nat, w as nat),
            dg2 == digit_of::<T, F>(key, shift2 as nat, w2 as nat),
            nb == pow2(w as nat),
            nb2 == pow2(w2 as nat),
            digits_below(s@, dg, nb),
            fused ==> digits_below(s@, dg2, nb2),
            scattered(s@, dg, nb, i as int, d@),
            positioned(s@, dg, nb, i as int, tab@),
            fused ==> counted(s@, dg2, nb2, i as int, next@),
            tab@.len() == old(tab)@.len(),
            next@.len() == old(next)@.len(),
        decreases n - i,
    {
        let e: T = s[i];
        hooks.on_read(s, i);
        let u: u64 = key.key(e);
        note_key(e, key.chunk(), hooks);
        let b: usize = digit_at(u, shift, w);
        hooks.on_table(&*tab, b, 4, true, true);
        proof {
            assert(b as int == dg(s@[i as int]));
            lemma_slot(s@, dg, nb, i as int);
            assert(tab@[b as int] as int == start(s@, dg, b as nat) + bucket(s@.take(i as int), dg, b as int).len());
            lemma_scatter_step(s@, dg, nb, i as int, d@, tab@, d@.update(tab@[b as int] as int, e), tab@.update(b as int, (tab@[b as int] + 1) as u32));
        }
        let slot: u32 = tab[b];
        d[slot as usize] = e;
        tab[b] = slot + 1;
        if fused {
            let b2: usize = digit_at(u, shift2, w2);
            proof {
                assert(b2 as int == dg2(s@[i as int]));
                lemma_count_step(s@, dg2, nb2, i as int, next@, next@.update(b2 as int, (next@[b2 as int] + 1) as u32));
            }
            let c: u32 = next[b2];
            next[b2] = c + 1;
            hooks.on_table(&*next, b2, 4, true, true);
        }
        hooks.on_write(&*d, slot as usize);
        i += 1;
    }
    proof {
        lemma_scatter_done(s@, dg, nb, d@);
        assert(d@.take(n as int) =~= d@);
        lemma_gathered_sort(s@, dg, nb);
        if fused {
            lemma_count_permutation(s@, d@, dg2, nb2, next@);
        }
    }
}

/// A pass by the digit above what is sorted already.
pub proof fn lemma_pass_extends<T: Elem, F: KeyFn<T>>(key: F, s: nat, w: nat, a: Seq<T>, b: Seq<T>, c: Seq<T>)
    requires
        stable_sort_of(by_key(low_of(key, s)), a, b),
        stable_sort_of(by_key(digit_of(key, s, w)), b, c),
    ensures
        stable_sort_of(by_key(low_of(key, s + w)), a, c),
{
    let first = by_key(digit_of::<T, F>(key, s, w));
    let second = by_key(low_of::<T, F>(key, s));
    let both = then_by(first, second);
    let low = by_key(low_of::<T, F>(key, s + w));
    lemma_by_key_total(digit_of::<T, F>(key, s, w));
    lemma_by_key_total(low_of::<T, F>(key, s));
    lemma_by_key_total(low_of::<T, F>(key, s + w));
    lemma_then_by_total(first, second);
    lemma_stable_sort_then(first, second, a, b, c);
    assert forall|i: int, j: int| 0 <= i < a.len() && 0 <= j < a.len() implies both(#[trigger] a[i], #[trigger] a[j]) == low(a[i], a[j]) by {
        lemma_low_step(image_of(key, a[i]), image_of(key, a[j]), s, w);
    }
    lemma_orders_agree(both, low, a, c);
}

/// The order of the low `s + w` bits: first the digit, then the low `s` bits.
pub proof fn lemma_low_step(x: u64, y: u64, s: nat, w: nat)
    ensures
        (x as nat % pow2(s + w) <= y as nat % pow2(s + w)) == (digit(x, s, w) < digit(y, s, w) || (digit(x, s, w) == digit(y, s, w) && x as nat % pow2(s) <= y as nat % pow2(s))),
{
    lemma_digit_split(x as nat, s, w);
    lemma_digit_split(y as nat, s, w);
    vstd::arithmetic::power2::lemma_pow2_pos(s);
    let p = pow2(s) as int;
    let (dx, dy) = (digit(x, s, w) as int, digit(y, s, w) as int);
    let (lx, ly) = (x as int % p, y as int % p);
    assert(0 <= lx < p && 0 <= ly < p);
    if dx < dy {
        assert(dx * p + lx <= dy * p + ly) by (nonlinear_arith)
            requires
                dx + 1 <= dy,
                0 <= lx < p,
                0 <= ly,
        ;
    } else if dx > dy {
        assert(dx * p + lx > dy * p + ly) by (nonlinear_arith)
            requires
                dx >= dy + 1,
                0 <= ly < p,
                0 <= lx,
        ;
    }
}

/// Every pair of keys differs in bits of `mask` only.
pub open spec fn keys_within<T: Elem, F: KeyFn<T>>(key: F, s: Seq<T>, mask: u64) -> bool {
    forall|i: int, j: int| 0 <= i < s.len() && 0 <= j < s.len() ==> agree_outside(image_of(key, #[trigger] s[i]), image_of(key, #[trigger] s[j]), mask)
}

pub proof fn lemma_within_permutation<T: Elem, F: KeyFn<T>>(key: F, a: Seq<T>, b: Seq<T>, mask: u64)
    requires
        keys_within(key, a, mask),
        permutation(a, b),
    ensures
        keys_within(key, b, mask),
{
    assert forall|i: int, j: int| 0 <= i < b.len() && 0 <= j < b.len() implies agree_outside(image_of(key, #[trigger] b[i]), image_of(key, #[trigger] b[j]), mask) by {
        let k = lemma_permutation_member(b, a, i);
        let l = lemma_permutation_member(b, a, j);
        assert(agree_outside(image_of(key, a[k]), image_of(key, a[l]), mask));
    }
}

/// A digit without a bit of the mask is the same in all keys.
pub proof fn lemma_dead_digit(x: u64, y: u64, mask: u64, s: u32, w: u32)
    requires
        s < 64,
        w < 32,
        agree_outside(x, y, mask),
        digit(mask, s as nat, w as nat) == 0,
    ensures
        digit(x, s as nat, w as nat) == digit(y, s as nat, w as nat),
{
    lemma_digit(mask, s, w);
    lemma_digit(x, s, w);
    lemma_digit(y, s, w);
    let m: u64 = ((1u64 << w) - 1) as u64;
    assert(((x >> s) & m) == ((y >> s) & m)) by (bit_vector)
        requires
            (x ^ y) & !mask == 0,
            (mask >> s) & m == 0,
            s < 64,
    ;
}

/// Digits that do not vary extend what is sorted for free.
proof fn lemma_dead_extends<T: Elem, F: KeyFn<T>>(key: F, plan: DigitPlan, total: nat, mask: u64, p: int, q: int, a: Seq<T>, b: Seq<T>)
    requires
        plan.covers(total),
        total <= 64,
        0 <= p <= q <= plan.passes,
        keys_within(key, a, mask),
        forall|c: int| p <= c < q ==> !#[trigger] is_live(plan, mask, c),
        stable_sort_of(by_key(low_of(key, plan.edge(p) as nat)), a, b),
    ensures
        stable_sort_of(by_key(low_of(key, plan.edge(q) as nat)), a, b),
    decreases q - p,
{
    if p < q {
        let s = plan.edge(p) as nat;
        let w = plan.bits[p] as nat;
        lemma_edge_monotone(plan, p, p);
        assert(plan.shift[p] == s);
        assert(!is_live(plan, mask, p));
        assert(plan.edge(p + 1) == s + w);
        let low = by_key(low_of::<T, F>(key, s));
        let more = by_key(low_of::<T, F>(key, s + w));
        lemma_by_key_total(low_of::<T, F>(key, s));
        lemma_by_key_total(low_of::<T, F>(key, s + w));
        assert forall|i: int, j: int| 0 <= i < a.len() && 0 <= j < a.len() implies low(#[trigger] a[i], #[trigger] a[j]) == more(a[i], a[j]) by {
            lemma_dead_digit(image_of(key, a[i]), image_of(key, a[j]), mask, plan.shift[p], plan.bits[p]);
            lemma_low_step(image_of(key, a[i]), image_of(key, a[j]), s, w);
        }
        lemma_orders_agree(low, more, a, b);
        lemma_dead_extends(key, plan, total, mask, p + 1, q, a, b);
    }
}

/// Nothing is sorted by no bits: every sequence is.
pub proof fn lemma_low_zero<T: Elem, F: KeyFn<T>>(key: F, a: Seq<T>)
    ensures
        stable_sort_of(by_key(low_of(key, 0)), a, a),
{
    lemma_pow2_32();
}

/// The next digit of the plan after `order[q]`, or the end of the plan.
spec fn next_digit(plan: DigitPlan, order: Seq<usize>, live: int, q: int) -> int {
    if q < live {
        order[q] as int
    } else {
        plan.passes as int
    }
}

/// No digit between two that follow each other in the list varies.
proof fn lemma_gap_dead(plan: DigitPlan, mask: u64, order: Seq<usize>, live: int, q: int, c: int)
    requires
        lists_live(plan, mask, order, live),
        0 <= q <= live,
        (if q == 0 {
            0
        } else {
            order[q - 1] + 1
        }) <= c < next_digit(plan, order, live, q),
    ensures
        !is_live(plan, mask, c),
{
    if is_live(plan, mask, c) {
        let r = choose|r: int| 0 <= r < live && order[r] == c;
        if r < q {
            if r < q - 1 {
                assert(order[r] < order[q - 1]);
            }
        } else {
            if r > q {
                assert(order[q] < order[r]);
            }
        }
    }
}

/// Where no digit varies, a sequence is sorted as it stands.
pub proof fn lemma_all_dead<T: Elem, F: KeyFn<T>>(key: F, plan: DigitPlan, total: nat, mask: u64, order: Seq<usize>, a: Seq<T>)
    requires
        plan.covers(total),
        total <= 64,
        keys_within(key, a, mask),
        lists_live(plan, mask, order, 0),
    ensures
        stable_sort_of(by_key(low_of(key, total)), a, a),
{
    lemma_low_zero(key, a);
    assert forall|c: int| 0 <= c < plan.passes implies !#[trigger] is_live(plan, mask, c) by {
        if is_live(plan, mask, c) {
            let q = choose|q: int| 0 <= q < 0 && order[q] == c;
        }
    }
    lemma_dead_extends(key, plan, total, mask, 0, plan.passes as int, a, a);
}

/// Under the full mask the lowest digit varies.
/// Where no bit of the keys varies, no digit does.
pub proof fn lemma_none_live(plan: DigitPlan, total: nat, mask: u64, order: Seq<usize>, live: int)
    requires
        plan.covers(total),
        lists_live(plan, mask, order, live),
        mask as int % pow2(total) as int == 0,
    ensures
        live == 0,
{
    if live > 0 {
        let p = order[0] as int;
        let (s, w) = (plan.shift[p] as nat, plan.bits[p] as nat);
        lemma_edge_monotone(plan, p + 1, plan.passes as int);
        assert(plan.edge(p + 1) == s + w);
        let rest = (total - s - w) as nat;
        let (ps, pw, pr) = (pow2(s) as int, pow2(w) as int, pow2(rest) as int);
        vstd::arithmetic::power2::lemma_pow2_adds(s, w);
        vstd::arithmetic::power2::lemma_pow2_adds(s + w, rest);
        vstd::arithmetic::power2::lemma_pow2_pos(s);
        vstd::arithmetic::power2::lemma_pow2_pos(w);
        vstd::arithmetic::power2::lemma_pow2_pos(total);
        vstd::arithmetic::div_mod::lemma_fundamental_div_mod(mask as int, pow2(total) as int);
        let q = mask as int / pow2(total) as int;
        assert(mask as int == ps * ((q * pr) * pw)) by (nonlinear_arith)
            requires
                mask as int == pow2(total) as int * q,
                pow2(total) == pow2(s + w) * pow2(rest),
                pow2(s + w) == pow2(s) * pow2(w),
                ps == pow2(s) as int,
                pw == pow2(w) as int,
                pr == pow2(rest) as int,
        ;
        vstd::arithmetic::div_mod::lemma_div_multiples_vanish((q * pr) * pw, ps);
        vstd::arithmetic::div_mod::lemma_mod_multiples_basic(q * pr, pw);
        assert(is_live(plan, mask, p));
    }
}

pub proof fn lemma_full_mask_live(plan: DigitPlan, total: nat, order: Seq<usize>, live: int)
    requires
        plan.covers(total),
        0 < total <= 64,
        lists_live(plan, u64::MAX, order, live),
    ensures
        live > 0,
{
    if plan.passes == 0 {
        assert(plan.edge(0) == 0);
    } else {
        let s = plan.shift[0];
        let w = plan.bits[0];
        lemma_digit(u64::MAX, s, w);
        let m: u64 = ((1u64 << w) - 1) as u64;
        assert((u64::MAX >> s) & m != 0) by (bit_vector)
            requires
                s < 64,
                1 <= w < 32,
                m == ((1u64 << w) - 1) as u64,
        ;
        assert(is_live(plan, u64::MAX, 0));
    }
}

/// Copies `s` to `d`.
pub fn copy_all<T: Copy>(s: &[T], d: &mut [T])
    requires
        s@.len() == old(d)@.len(),
    ensures
        final(d)@ == s@,
{
    let n: usize = s.len();
    let mut i: usize = 0;
    while i < n
        invariant
            i <= n,
            n == s@.len() == d@.len(),
            forall|k: int| 0 <= k < i ==> d@[k] == s@[k],
        decreases n - i,
    {
        d[i] = s[i];
        i += 1;
    }
    assert(d@ =~= s@);
}

/// Scatter passes over the digits `order[0..live)` of `s` with `d` as the other
/// buffer. `tab0` must hold the counts of digit `order[0]`; the counts of each
/// following pass are built while the previous one scatters, so the two tables
/// alternate. The data ends up in `s` or `d` as `result_in_src` asks, or, when
/// `free` is set, wherever the last pass left it; the return value says
/// whether that is `s` either way.
pub fn radix_passes<T: Elem, F: KeyFn<T>, H: Hooks>(
    s: &mut [T],
    d: &mut [T],
    plan: &DigitPlan,
    key: F,
    order: &[usize; 8],
    live: usize,
    tab0: &mut [u32],
    tab1: &mut [u32],
    result_in_src: bool,
    free: bool,
    hooks: &mut H,
    Ghost(total): Ghost<nat>,
    Ghost(mask): Ghost<u64>,
) -> (r: bool)
    requires
        old(s)@.len() <= 0xFFFF_FFFF,
        old(d)@.len() == old(s)@.len(),
        readable(key, old(s)@),
        total <= 64,
        plan.covers(total),
        keys_within(key, old(s)@, mask),
        lists_live(*plan, mask, order@, live as int),
        live >= 1 ==> pow2(plan.max_bits as nat) <= old(tab0)@.len(),
        live >= 2 ==> pow2(plan.max_bits as nat) <= old(tab1)@.len(),
        live >= 1 ==> counted(
            old(s)@,
            digit_of(key, plan.shift[order[0] as int] as nat, plan.bits[order[0] as int] as nat),
            pow2(plan.bits[order[0] as int] as nat),
            old(s)@.len() as int,
            old(tab0)@,
        ),
    ensures
        keeps_record(*old(hooks), *final(hooks)),
        H::records() ==> final(hooks).tally() == moved_tally::<H>(
            passes_tally::<T, F, H>(old(hooks).tally(), old(s)@, key, *plan, listed(order@, live as int), live as int),
            old(s)@.len() as int,
            live % 2 == 0,
            result_in_src,
            free,
        ),
        !free ==> r == result_in_src,
        r ==> stable_sort_of(by_key(low_of(key, total)), old(s)@, final(s)@),
        !r ==> stable_sort_of(by_key(low_of(key, total)), old(s)@, final(d)@),
        final(s)@.len() == old(s)@.len(),
        final(d)@.len() == old(s)@.len(),
        final(tab0)@.len() == old(tab0)@.len(),
        final(tab1)@.len() == old(tab1)@.len(),
{
    let ghost a = s@;
    let ghost ord = listed(order@, live as int);
    let n: usize = s.len();
    let mut in_src = true;
    let mut q: usize = 0;
    proof {
        lemma_low_zero(key, a);
        assert forall|c: int| 0 <= c < next_digit(*plan, order@, live as int, 0) implies !#[trigger] is_live(*plan, mask, c) by {
            lemma_gap_dead(*plan, mask, order@, live as int, 0, c);
        }
        lemma_dead_extends(key, *plan, total, mask, 0, next_digit(*plan, order@, live as int, 0), a, a);
    }
    while q < live
        invariant
            keeps_record(*old(hooks), *hooks),
            ord == listed(order@, live as int),
            (if in_src {
                s@
            } else {
                d@
            }) == passed(a, key, *plan, ord, q as int),
            H::records() ==> hooks.tally() == passes_tally::<T, F, H>(old(hooks).tally(), a, key, *plan, ord, q as int),
            q <= live <= plan.passes <= 8,
            n == a.len() == s@.len() == d@.len(),
            n <= 0xFFFF_FFFF,
            in_src == (q % 2 == 0),
            readable(key, a),
            total <= 64,
            plan.covers(total),
            keys_within(key, a, mask),
            lists_live(*plan, mask, order@, live as int),
            live >= 1 ==> pow2(plan.max_bits as nat) <= tab0@.len(),
            live >= 2 ==> pow2(plan.max_bits as nat) <= tab1@.len(),
            tab0@.len() == old(tab0)@.len(),
            tab1@.len() == old(tab1)@.len(),
            q < live ==> counted(
                if in_src {
                    s@
                } else {
                    d@
                },
                digit_of(key, plan.shift[order[q as int] as int] as nat, plan.bits[order[q as int] as int] as nat),
                pow2(plan.bits[order[q as int] as int] as nat),
                n as int,
                if in_src {
                    tab0@
                } else {
                    tab1@
                },
            ),
            stable_sort_of(
                by_key(low_of(key, plan.edge(next_digit(*plan, order@, live as int, q as int)) as nat)),
                a,
                if in_src {
                    s@
                } else {
                    d@
                },
            ),
        decreases live - q,
    {
        let p: usize = order[q];
        let shift: u32 = plan.shift[p];
        let w: u32 = plan.bits[p];
        let fused = q + 1 < live;
        let p2: usize = if fused {
            order[q + 1]
        } else {
            p
        };
        let shift2: u32 = plan.shift[p2];
        let w2: u32 = plan.bits[p2];
        proof {
            lemma_pow2_le(w as nat, plan.max_bits as nat);
            lemma_pow2_le(w2 as nat, plan.max_bits as nat);
        }
        let ghost cur = if in_src {
            s@
        } else {
            d@
        };
        proof {
            assert(ord[q as int] == p);
            lemma_readable_permutation(key, a, cur);
        }
        hooks.stat(Stat::RadixPasses, 1);
        if in_src {
            scatter_pass(s, d, key, shift, w, tab0, tab1, fused, shift2, w2, plan.width(), hooks);
        } else {
            scatter_pass(d, s, key, shift, w, tab1, tab0, fused, shift2, w2, plan.width(), hooks);
        }
        in_src = !in_src;
        proof {
            let now = if in_src {
                s@
            } else {
                d@
            };
            lemma_edge_monotone(*plan, p as int, p as int);
            lemma_pass_extends(key, plan.edge(p as int) as nat, w as nat, a, cur, now);
            assert(plan.edge(p + 1) == plan.edge(p as int) + w);
            assert forall|c: int| p + 1 <= c < next_digit(*plan, order@, live as int, q + 1) implies !#[trigger] is_live(*plan, mask, c) by {
                lemma_gap_dead(*plan, mask, order@, live as int, q + 1, c);
            }
            if fused {
                assert(order@[q as int] < order@[q + 1]);
            }
            lemma_dead_extends(key, *plan, total, mask, p + 1, next_digit(*plan, order@, live as int, q + 1), a, now);
        }
        q += 1;
    }
    if free {
        return in_src;
    }
    if in_src != result_in_src {
        if in_src {
            copy_all(s, d);
            note_copies(&*s, 0, &*d, 0, n, hooks);
        } else {
            copy_all(d, s);
            note_copies(&*d, 0, &*s, 0, n, hooks);
        }
    }
    result_in_src
}

} // verus!
