//! The input distributions. Every input is a function of its name, its size and
//! its seed: the draws are those of the 64-bit Mersenne twister, whose constants
//! are fixed, so the same seed gives the same stream on every platform.
use crate::sort;
use crate::bench::{I64Item, Item, Item2, StrItem};
use crate::bench::render::same_text;
use crate::key::{by_leaves, key_le, key_order_total, lemma_by_leaves_total, Key, LeafModel};
use crate::key::string::one_text;
use crate::order::{
    lemma_antisymmetric_stable, lemma_map_permutation, lemma_permutation_len, permutation, sorted,
    stable_sort_is_unique, tied,
};
use crate::permute::swap_at;
use crate::shape::MAX_PARTS;
use crate::view::reverse_range;
use vstd::prelude::*;

verus! {

// ---- the generator -------------------------------------------------------------------------------

/// The words of the generator's state.
pub const WORDS: usize = 312;

/// The distance of the word that is mixed in.
pub const MIDDLE: usize = 156;

pub const MATRIX: u64 = 0xB502_6F5A_A966_19E9;

pub const UPPER: u64 = 0xFFFF_FFFF_8000_0000;

pub const LOWER: u64 = 0x7FFF_FFFF;

/// The word that follows `low`, where `high` follows `low` and `far` stands
/// `MIDDLE` words on.
pub open spec fn twisted(low: u64, high: u64, far: u64) -> u64 {
    let x = (low & UPPER) | (high & LOWER);
    far ^ (x >> 1) ^ if x & 1 != 0 {
        MATRIX
    } else {
        0
    }
}

/// Word `i` of the stream of a seed, before tempering. The first `WORDS` are the
/// seeded state.
pub open spec fn stream(seed: u64, i: nat) -> u64
    decreases i,
{
    if i == 0 {
        seed
    } else if i < WORDS {
        let p = stream(seed, (i - 1) as nat);
        6364136223846793005u64.wrapping_mul(p ^ (p >> 62)).wrapping_add(i as u64)
    } else {
        twisted(stream(seed, (i - 312) as nat), stream(seed, (i - 311) as nat), stream(seed, (i - 156) as nat))
    }
}

/// A word as it is drawn.
pub open spec fn tempered(w: u64) -> u64 {
    let a = w ^ ((w >> 29) & 0x5555_5555_5555_5555);
    let b = a ^ ((a << 17) & 0x71D6_7FFF_EDA6_0000);
    let c = b ^ ((b << 37) & 0xFFF7_EEE0_0000_0000);
    c ^ (c >> 43)
}

/// Draw number `k` of a seed.
pub open spec fn draw(seed: u64, k: nat) -> u64 {
    tempered(stream(seed, k + 312))
}

/// The 64-bit Mersenne twister.
pub struct Mt19937_64 {
    mt: [u64; 312],
    mti: usize,
    seed: Ghost<u64>,
    base: Ghost<nat>,
}

impl Mt19937_64 {
    /// The seed.
    pub closed spec fn seed(&self) -> u64 {
        self.seed@
    }

    /// How many numbers were drawn.
    pub closed spec fn drawn(&self) -> nat {
        (self.base@ + self.mti - 312) as nat
    }

    /// The state is a window of the stream.
    pub closed spec fn wf(&self) -> bool {
        &&& self.mti <= 312
        &&& self.base@ + self.mti >= 312
        &&& forall|j: int| 0 <= j < 312 ==> #[trigger] self.mt@[j] == stream(self.seed@, (self.base@ + j) as nat)
    }

    /// The generator of a seed.
    pub fn new(seed: u64) -> (r: Self)
        ensures
            r.wf(),
            r.seed() == seed,
            r.drawn() == 0,
    {
        let mut mt: [u64; 312] = [0u64; 312];
        mt[0] = seed;
        let mut i: usize = 1;
        while i < 312
            invariant
                1 <= i <= 312,
                forall|j: int| 0 <= j < i ==> #[trigger] mt@[j] == stream(seed, j as nat),
            decreases 312 - i,
        {
            let p: u64 = mt[i - 1];
            assert(p == stream(seed, (i - 1) as nat));
            mt[i] = 6364136223846793005u64.wrapping_mul(p ^ (p >> 62)).wrapping_add(i as u64);
            i += 1;
        }
        Mt19937_64 { mt, mti: 312, seed: Ghost(seed), base: Ghost(0) }
    }

    /// The next `WORDS` words.
    fn twist(&mut self)
        requires
            old(self).wf(),
            old(self).mti == 312,
        ensures
            final(self).wf(),
            final(self).mti == 0,
            final(self).seed() == old(self).seed(),
            final(self).drawn() == old(self).drawn(),
    {
        let ghost b = self.base@;
        let ghost s = self.seed@;
        let mut i: usize = 0;
        while i < 312
            invariant
                i <= 312,
                self.seed@ == s,
                self.base@ == b,
                self.mti == 312,
                forall|j: int| 0 <= j < i ==> #[trigger] self.mt@[j] == stream(s, (b + 312 + j) as nat),
                forall|j: int| i <= j < 312 ==> #[trigger] self.mt@[j] == stream(s, (b + j) as nat),
            decreases 312 - i,
        {
            let low: u64 = self.mt[i];
            let next: usize = if i == 311 {
                0
            } else {
                i + 1
            };
            let high: u64 = self.mt[next];
            let far: u64 = if i < 156 {
                self.mt[i + 156]
            } else {
                self.mt[i - 156]
            };
            let x: u64 = (low & UPPER) | (high & LOWER);
            self.mt[i] = far ^ (x >> 1) ^ if x & 1 != 0 {
                MATRIX
            } else {
                0
            };
            proof {
                let k = (b + 312 + i) as nat;
                assert(low == stream(s, (k - 312) as nat));
                assert(high == stream(s, (k - 311) as nat));
                assert(far == stream(s, (k - 156) as nat));
                assert(stream(s, k) == twisted(low, high, far));
            }
            i += 1;
        }
        self.base = Ghost(b + 312);
        self.mti = 0;
    }

    /// The next draw.
    pub fn next_u64(&mut self) -> (r: u64)
        requires
            old(self).wf(),
        ensures
            final(self).wf(),
            final(self).seed() == old(self).seed(),
            final(self).drawn() == old(self).drawn() + 1,
            r == draw(old(self).seed(), old(self).drawn()),
    {
        if self.mti >= 312 {
            self.twist();
        }
        let mut y: u64 = self.mt[self.mti];
        assert(y == stream(self.seed@, (self.base@ + self.mti) as nat));
        self.mti = self.mti + 1;
        y = y ^ ((y >> 29) & 0x5555_5555_5555_5555);
        y = y ^ ((y << 17) & 0x71D6_7FFF_EDA6_0000);
        y = y ^ ((y << 37) & 0xFFF7_EEE0_0000_0000);
        y ^ (y >> 43)
    }
}

// ---- uniform draws -------------------------------------------------------------------------------

/// The bits below the highest set one, with it.
pub open spec fn mask_over(x: u64) -> u64 {
    let a = x | (x >> 1);
    let b = a | (a >> 2);
    let c = b | (b >> 4);
    let d = c | (c >> 8);
    let e = d | (d >> 16);
    e | (e >> 32)
}

/// The first of at most `left` masked draws from number `d` on that is at most
/// `range`, and how many draws that took. Zero where there is none.
pub open spec fn first_within(seed: u64, d: nat, mask: u64, range: u64, left: nat) -> (u64, nat)
    decreases left,
{
    if left == 0 {
        (0, 0)
    } else if draw(seed, d) & mask <= range {
        (draw(seed, d) & mask, 1)
    } else {
        let t = first_within(seed, d + 1, mask, range, (left - 1) as nat);
        (t.0, t.1 + 1)
    }
}

/// A uniform integer in `[lo, hi]` from draw number `d` on, and how many draws
/// it takes.
pub open spec fn uniform_at(seed: u64, d: nat, lo: u64, hi: u64) -> (u64, nat) {
    let range = hi.wrapping_sub(lo);
    if range == u64::MAX {
        (draw(seed, d), 1)
    } else {
        let t = first_within(seed, d, mask_over(range), range, u64::MAX as nat);
        (lo.wrapping_add(t.0), t.1)
    }
}

/// A uniform integer in `[lo, hi]`, by rejection on the masked low bits of the
/// 64-bit draw. Should 2^64 - 1 draws in a row be rejected, `lo` is given.
pub fn uniform_u64(rng: &mut Mt19937_64, lo: u64, hi: u64) -> (r: u64)
    requires
        old(rng).wf(),
    ensures
        final(rng).wf(),
        final(rng).seed() == old(rng).seed(),
        (r, (final(rng).drawn() - old(rng).drawn()) as nat) == uniform_at(old(rng).seed(), old(rng).drawn(), lo, hi),
        final(rng).drawn() >= old(rng).drawn(),
        lo <= hi ==> lo <= r <= hi,
{
    let range: u64 = hi.wrapping_sub(lo);
    if range == u64::MAX {
        return rng.next_u64();
    }
    let mut mask: u64 = range;
    mask = mask | (mask >> 1);
    mask = mask | (mask >> 2);
    mask = mask | (mask >> 4);
    mask = mask | (mask >> 8);
    mask = mask | (mask >> 16);
    mask = mask | (mask >> 32);
    assert(mask == mask_over(range));
    let ghost seed = rng.seed();
    let ghost start = rng.drawn();
    let mut left: u64 = u64::MAX;
    while left > 0
        invariant
            rng.wf(),
            rng.seed() == seed,
            rng.drawn() >= start,
            old(rng).seed() == seed,
            old(rng).drawn() == start,
            range == hi.wrapping_sub(lo),
            range != u64::MAX,
            mask == mask_over(range),
            ({
                let t = first_within(seed, rng.drawn(), mask, range, left as nat);
                first_within(seed, start, mask, range, u64::MAX as nat) == (t.0, t.1 + (rng.drawn() - start) as nat)
            }),
        decreases left,
    {
        let r: u64 = rng.next_u64() & mask;
        if r <= range {
            return lo.wrapping_add(r);
        }
        left -= 1;
    }
    lo
}

/// A uniform signed integer from draw number `d` on, and how many draws it takes.
pub open spec fn uniform_signed_at(seed: u64, d: nat, lo: i64, hi: i64) -> (i64, nat) {
    let t = uniform_at(seed, d, 0, (hi as u64).wrapping_sub(lo as u64));
    (t.0.wrapping_add(lo as u64) as i64, t.1)
}

/// A uniform integer in `[lo, hi]`.
pub fn uniform_i64(rng: &mut Mt19937_64, lo: i64, hi: i64) -> (r: i64)
    requires
        old(rng).wf(),
    ensures
        final(rng).wf(),
        final(rng).seed() == old(rng).seed(),
        final(rng).drawn() >= old(rng).drawn(),
        (r, (final(rng).drawn() - old(rng).drawn()) as nat) == uniform_signed_at(old(rng).seed(), old(rng).drawn(), lo, hi),
        lo <= hi ==> lo <= r <= hi,
{
    let range: u64 = (hi as u64).wrapping_sub(lo as u64);
    let t: u64 = uniform_u64(rng, 0, range);
    let r: i64 = t.wrapping_add(lo as u64) as i64;
    proof {
        if lo <= hi {
            lemma_signed_range(lo, hi, t);
        }
    }
    r
}

/// Wrapping arithmetic stays in a signed range.
pub(crate) proof fn lemma_signed_range(lo: i64, hi: i64, t: u64)
    requires
        lo <= hi,
        t <= (hi as u64).wrapping_sub(lo as u64),
    ensures
        lo <= (t.wrapping_add(lo as u64) as i64) <= hi,
        t.wrapping_add(lo as u64) as i64 == lo + t,
        (hi as u64).wrapping_sub(lo as u64) == hi - lo,
{
    let (a, b) = (lo as u64, hi as u64);
    let d = b.wrapping_sub(a);
    let s = t.wrapping_add(a);
    assert(lo as u64 == if lo < 0 {
        lo + 0x1_0000_0000_0000_0000
    } else {
        lo as int
    }) by (bit_vector);
    assert(hi as u64 == if hi < 0 {
        hi + 0x1_0000_0000_0000_0000
    } else {
        hi as int
    }) by (bit_vector);
    assert(s as i64 == if s >= 0x8000_0000_0000_0000u64 {
        s - 0x1_0000_0000_0000_0000
    } else {
        s as int
    }) by (bit_vector);
}

// ---- keys ----------------------------------------------------------------------------------------

/// What the keys of a dataset are drawn from.
#[derive(Clone, Copy, PartialEq, Eq, Debug, Structural)]
pub enum Source {
    /// Any key.
    Random,
    /// A key with a long common prefix.
    Prefixed,
    /// A key in which few bits vary.
    SparseBits,
    /// One of four small keys.
    SmallRange,
}

/// Per-type key generation: a key of a source, and a key from a small integer
/// (monotone, distinct for distinct integers).
pub trait KeyGen {
    /// The key.
    type Key: Key;

    /// The key of a source from draw number `d` on, and how many draws it takes.
    spec fn key_at(source: Source, seed: u64, d: nat) -> (Seq<LeafModel>, nat);

    /// The key of an integer.
    spec fn int_key(v: i64) -> Seq<LeafModel>;

    /// The keys have a valid shape.
    proof fn key_shape()
        ensures
            1 <= Self::Key::parts().len() <= MAX_PARTS,
    ;

    /// A key of a source.
    fn generate(source: Source, rng: &mut Mt19937_64) -> (r: Self::Key)
        requires
            old(rng).wf(),
        ensures
            final(rng).wf(),
            final(rng).seed() == old(rng).seed(),
            final(rng).drawn() >= old(rng).drawn(),
            (r.leaves(), (final(rng).drawn() - old(rng).drawn()) as nat) == Self::key_at(source, old(rng).seed(), old(rng).drawn()),
    ;

    /// The key of an integer.
    fn from_int(v: i64) -> (r: Self::Key)
        requires
            -0x100_0000_0000 <= v <= 0xFFFF_FFFF_FFFF,
        ensures
            r.leaves() == Self::int_key(v),
    ;

    /// The same key once more.
    fn again(k: &Self::Key) -> (r: Self::Key)
        ensures
            r.leaves() == k.leaves(),
    ;
}

/// The draw of a key with few varying bits: four at the top and four at the
/// bottom.
pub open spec fn sparse_of(w: u64) -> i32 {
    let r = (w & 0xFF) as u32;
    (((r >> 4) << 28) | (r & 0xF)) as i32
}

fn sparse_bits_i32(rng: &mut Mt19937_64) -> (r: i32)
    requires
        old(rng).wf(),
    ensures
        final(rng).wf(),
        final(rng).seed() == old(rng).seed(),
        final(rng).drawn() == old(rng).drawn() + 1,
        r == sparse_of(draw(old(rng).seed(), old(rng).drawn())),
{
    let r: u32 = (rng.next_u64() & 0xFF) as u32;
    (((r >> 4) << 28) | (r & 0xF)) as i32
}

/// The keys of 8-byte items.
pub struct Int32Keys;

impl KeyGen for Int32Keys {
    type Key = i32;

    open spec fn key_at(source: Source, seed: u64, d: nat) -> (Seq<LeafModel>, nat) {
        let w = draw(seed, d);
        match source {
            Source::Random => ((w as u32 as i32).leaves(), 1),
            Source::Prefixed => (((0x4000_0000u64 | (w & 0xF_FFFF)) as i32).leaves(), 1),
            Source::SparseBits => (sparse_of(w).leaves(), 1),
            Source::SmallRange => (Self::int_key((w % 4) as i64), 1),
        }
    }

    open spec fn int_key(v: i64) -> Seq<LeafModel> {
        (v as i32).leaves()
    }

    proof fn key_shape() {
    }

    fn generate(source: Source, rng: &mut Mt19937_64) -> (r: i32) {
        match source {
            Source::Random => rng.next_u64() as u32 as i32,
            Source::Prefixed => (0x4000_0000u64 | (rng.next_u64() & 0xF_FFFF)) as i32,
            Source::SparseBits => sparse_bits_i32(rng),
            Source::SmallRange => Self::from_int((rng.next_u64() % 4) as i64),
        }
    }

    fn from_int(v: i64) -> (r: i32) {
        v as i32
    }

    fn again(k: &i32) -> (r: i32) {
        *k
    }
}

/// The keys of 16-byte items.
pub struct Int64Keys;

impl KeyGen for Int64Keys {
    type Key = i64;

    open spec fn key_at(source: Source, seed: u64, d: nat) -> (Seq<LeafModel>, nat) {
        let w = draw(seed, d);
        match source {
            Source::Random => ((w as i64).leaves(), 1),
            Source::Prefixed => (((0x5A5A_0000_0000_0000u64 | (w & 0xF_FFFF)) as i64).leaves(), 1),
            Source::SparseBits => ((sparse_of(w) as i64).leaves(), 1),
            Source::SmallRange => (Self::int_key((w % 4) as i64), 1),
        }
    }

    open spec fn int_key(v: i64) -> Seq<LeafModel> {
        v.leaves()
    }

    proof fn key_shape() {
    }

    fn generate(source: Source, rng: &mut Mt19937_64) -> (r: i64) {
        match source {
            Source::Random => rng.next_u64() as i64,
            Source::Prefixed => (0x5A5A_0000_0000_0000u64 | (rng.next_u64() & 0xF_FFFF)) as i64,
            Source::SparseBits => sparse_bits_i32(rng) as i64,
            Source::SmallRange => Self::from_int((rng.next_u64() % 4) as i64),
        }
    }

    fn from_int(v: i64) -> (r: i64) {
        v
    }

    fn again(k: &i64) -> (r: i64) {
        *k
    }
}

/// The keys of 16-byte items with a floating point number, before they are scaled:
/// the upper 53 bits of a draw, a part of the range from which a number is drawn, or
/// the integer that the number is a multiple of.
pub struct UnitKeys;

impl KeyGen for UnitKeys {
    type Key = i64;

    open spec fn key_at(source: Source, seed: u64, d: nat) -> (Seq<LeafModel>, nat) {
        let w = draw(seed, d);
        match source {
            Source::Random => (((w >> 11) as i64).leaves(), 1),
            Source::Prefixed => (((w >> 11) as i64).leaves(), 1),
            Source::SparseBits => ((sparse_of(w) as i64).leaves(), 1),
            Source::SmallRange => (Self::int_key((w % 4) as i64), 1),
        }
    }

    open spec fn int_key(v: i64) -> Seq<LeafModel> {
        v.leaves()
    }

    proof fn key_shape() {
    }

    fn generate(source: Source, rng: &mut Mt19937_64) -> (r: i64) {
        match source {
            Source::Random => (rng.next_u64() >> 11) as i64,
            Source::Prefixed => (rng.next_u64() >> 11) as i64,
            Source::SparseBits => sparse_bits_i32(rng) as i64,
            Source::SmallRange => Self::from_int((rng.next_u64() % 4) as i64),
        }
    }

    fn from_int(v: i64) -> (r: i64) {
        v
    }

    fn again(k: &i64) -> (r: i64) {
        *k
    }
}

/// The keys of string items.
pub struct TextKeys;

/// `n` lower-case letters from draw number `d` on.
pub open spec fn letters_at(seed: u64, d: nat, n: nat) -> Seq<u8> {
    Seq::new(n, |i: int| (97 + draw(seed, (d + i) as nat) % 26) as u8)
}

/// A number in decimal with zeros in front, as bytes.
pub open spec fn digits_at(v: nat, width: nat) -> Seq<u8>
    decreases v + width,
{
    if width <= 1 && v < 10 {
        seq![(48 + v) as u8]
    } else {
        digits_at(
            v / 10,
            (if width > 0 {
                width - 1
            } else {
                0
            }) as nat,
        ).push((48 + v % 10) as u8)
    }
}

/// The start of a prefixed key.
pub open spec fn customer() -> Seq<u8> {
    seq![99, 117, 115, 116, 111, 109, 101, 114, 45]
}

fn push_digits(s: &mut Vec<u8>, v: u64, width: usize)
    ensures
        final(s)@ == old(s)@ + digits_at(v as nat, width as nat),
    decreases v + width,
{
    if width > 1 || v >= 10 {
        push_digits(
            s,
            v / 10,
            if width > 0 {
                width - 1
            } else {
                0
            },
        );
    }
    s.push(48 + (v % 10) as u8);
    assert(s@ =~= old(s)@ + digits_at(v as nat, width as nat));
}

impl KeyGen for TextKeys {
    type Key = Vec<u8>;

    open spec fn key_at(source: Source, seed: u64, d: nat) -> (Seq<LeafModel>, nat) {
        let w = draw(seed, d);
        match source {
            Source::Random => (one_text(letters_at(seed, d + 1, (3 + w % 10) as nat)), (4 + w % 10) as nat),
            Source::Prefixed => (one_text(customer() + digits_at((w % 100_000_000) as nat, 8)), 1),
            Source::SparseBits => (Self::int_key(sparse_of(w) as i64), 1),
            Source::SmallRange => (Self::int_key((w % 4) as i64), 1),
        }
    }

    open spec fn int_key(v: i64) -> Seq<LeafModel> {
        one_text(digits_at((v + 0x100_0000_0000) as nat, 12))
    }

    proof fn key_shape() {
    }

    fn generate(source: Source, rng: &mut Mt19937_64) -> (r: Vec<u8>) {
        match source {
            Source::Random => {
                let ghost seed = rng.seed();
                let ghost d = rng.drawn();
                let len: usize = 3 + (rng.next_u64() % 10) as usize;
                let mut r: Vec<u8> = Vec::new();
                while r.len() < len
                    invariant
                        rng.wf(),
                        rng.seed() == seed,
                        rng.drawn() == d + 1 + r@.len(),
                        r@.len() <= len,
                        forall|i: int| 0 <= i < r@.len() ==> #[trigger] r@[i] == (97 + draw(seed, (d + 1 + i) as nat) % 26) as u8,
                    decreases len - r@.len(),
                {
                    r.push(97 + (rng.next_u64() % 26) as u8);
                }
                assert(r@ =~= letters_at(seed, d + 1, len as nat));
                r
            },
            Source::Prefixed => {
                let mut r: Vec<u8> = Vec::new();
                r.push(99);
                r.push(117);
                r.push(115);
                r.push(116);
                r.push(111);
                r.push(109);
                r.push(101);
                r.push(114);
                r.push(45);
                assert(r@ =~= customer());
                push_digits(&mut r, rng.next_u64() % 100_000_000, 8);
                r
            },
            Source::SparseBits => Self::from_int(sparse_bits_i32(rng) as i64),
            Source::SmallRange => Self::from_int((rng.next_u64() % 4) as i64),
        }
    }

    fn from_int(v: i64) -> (r: Vec<u8>) {
        let mut r: Vec<u8> = Vec::new();
        push_digits(&mut r, (v + 0x100_0000_0000) as u64, 12);
        assert(r@ =~= digits_at((v + 0x100_0000_0000) as nat, 12));
        r
    }

    fn again(k: &Vec<u8>) -> (r: Vec<u8>) {
        let mut r: Vec<u8> = Vec::new();
        let n: usize = k.len();
        while r.len() < n
            invariant
                n == k@.len(),
                r@.len() <= n,
                r@ == k@.take(r@.len() as int),
            decreases n - r@.len(),
        {
            let x: u8 = k[r.len()];
            r.push(x);
            assert(r@ =~= k@.take(r@.len() as int));
        }
        assert(r@ =~= k@);
        r
    }
}

// ---- datasets ------------------------------------------------------------------------------------

/// The input patterns.
#[derive(Clone, Copy, PartialEq, Eq, Debug, Structural)]
pub enum Pattern {
    Random,
    Sorted,
    Reverse,
    NearlySorted,
    FewUnique,
    AllEqual,
    Runs,
    OrganPipe,
    SmallRange,
    Sawtooth,
    Prefixed,
    SparseBits,
}

/// The element types.
#[derive(Clone, Copy, PartialEq, Eq, Debug, Structural)]
pub enum ElementType {
    Int32,
    Double,
    Int64,
    Text,
}

impl Pattern {
    /// The name of the pattern.
    pub open spec fn text(self) -> Seq<char> {
        match self {
            Pattern::Random => "random"@,
            Pattern::Sorted => "sorted"@,
            Pattern::Reverse => "reverse"@,
            Pattern::NearlySorted => "nearly_sorted"@,
            Pattern::FewUnique => "few_unique"@,
            Pattern::AllEqual => "all_equal"@,
            Pattern::Runs => "runs"@,
            Pattern::OrganPipe => "organ_pipe"@,
            Pattern::SmallRange => "small_range"@,
            Pattern::Sawtooth => "sawtooth"@,
            Pattern::Prefixed => "prefixed"@,
            Pattern::SparseBits => "sparse_bits"@,
        }
    }

    /// The place among the patterns.
    pub open spec fn place(self) -> int {
        match self {
            Pattern::Random => 0,
            Pattern::Sorted => 1,
            Pattern::Reverse => 2,
            Pattern::NearlySorted => 3,
            Pattern::FewUnique => 4,
            Pattern::AllEqual => 5,
            Pattern::Runs => 6,
            Pattern::OrganPipe => 7,
            Pattern::SmallRange => 8,
            Pattern::Sawtooth => 9,
            Pattern::Prefixed => 10,
            Pattern::SparseBits => 11,
        }
    }

    /// The pattern at a place.
    pub fn at(i: usize) -> (r: Pattern)
        requires
            i < 12,
        ensures
            r.place() == i,
    {
        match i {
            0 => Pattern::Random,
            1 => Pattern::Sorted,
            2 => Pattern::Reverse,
            3 => Pattern::NearlySorted,
            4 => Pattern::FewUnique,
            5 => Pattern::AllEqual,
            6 => Pattern::Runs,
            7 => Pattern::OrganPipe,
            8 => Pattern::SmallRange,
            9 => Pattern::Sawtooth,
            10 => Pattern::Prefixed,
            _ => Pattern::SparseBits,
        }
    }

    /// The name of the pattern.
    pub fn name(self) -> (r: &'static str)
        ensures
            r@ == self.text(),
    {
        match self {
            Pattern::Random => "random",
            Pattern::Sorted => "sorted",
            Pattern::Reverse => "reverse",
            Pattern::NearlySorted => "nearly_sorted",
            Pattern::FewUnique => "few_unique",
            Pattern::AllEqual => "all_equal",
            Pattern::Runs => "runs",
            Pattern::OrganPipe => "organ_pipe",
            Pattern::SmallRange => "small_range",
            Pattern::Sawtooth => "sawtooth",
            Pattern::Prefixed => "prefixed",
            Pattern::SparseBits => "sparse_bits",
        }
    }

    /// Patterns of one name are one.
    pub proof fn names_apart(self, other: Pattern)
        ensures
            self.text() == other.text() ==> self == other,
    {
        reveal_strlit("random");
        reveal_strlit("sorted");
        reveal_strlit("reverse");
        reveal_strlit("nearly_sorted");
        reveal_strlit("few_unique");
        reveal_strlit("all_equal");
        reveal_strlit("runs");
        reveal_strlit("organ_pipe");
        reveal_strlit("small_range");
        reveal_strlit("sawtooth");
        reveal_strlit("prefixed");
        reveal_strlit("sparse_bits");
        assert("random"@.len() == 6 && "random"@[0] == 'r' && "random"@[1] == 'a' && "random"@[3] == 'd');
        assert("sorted"@.len() == 6 && "sorted"@[0] == 's' && "sorted"@[1] == 'o' && "sorted"@[3] == 't');
        assert("reverse"@.len() == 7 && "reverse"@[0] == 'r' && "reverse"@[1] == 'e' && "reverse"@[3] == 'e');
        assert("nearly_sorted"@.len() == 13 && "nearly_sorted"@[0] == 'n' && "nearly_sorted"@[1] == 'e' && "nearly_sorted"@[3] == 'r');
        assert("few_unique"@.len() == 10 && "few_unique"@[0] == 'f' && "few_unique"@[1] == 'e' && "few_unique"@[3] == '_');
        assert("all_equal"@.len() == 9 && "all_equal"@[0] == 'a' && "all_equal"@[1] == 'l' && "all_equal"@[3] == '_');
        assert("runs"@.len() == 4 && "runs"@[0] == 'r' && "runs"@[1] == 'u' && "runs"@[3] == 's');
        assert("organ_pipe"@.len() == 10 && "organ_pipe"@[0] == 'o' && "organ_pipe"@[1] == 'r' && "organ_pipe"@[3] == 'a');
        assert("small_range"@.len() == 11 && "small_range"@[0] == 's' && "small_range"@[1] == 'm' && "small_range"@[3] == 'l');
        assert("sawtooth"@.len() == 8 && "sawtooth"@[0] == 's' && "sawtooth"@[1] == 'a' && "sawtooth"@[3] == 't');
        assert("prefixed"@.len() == 8 && "prefixed"@[0] == 'p' && "prefixed"@[1] == 'r' && "prefixed"@[3] == 'f');
        assert("sparse_bits"@.len() == 11 && "sparse_bits"@[0] == 's' && "sparse_bits"@[1] == 'p' && "sparse_bits"@[3] == 'r');
    }

    /// The pattern of a name; `None` for a name that is none.
    pub fn parse(name: &str) -> (r: Option<Pattern>)
        ensures
            r matches Some(p) ==> p.text() == name@,
            r is None ==> forall|p: Pattern| #[trigger] p.text() != name@,
    {
        let mut i: usize = 0;
        while i < 12
            invariant
                i <= 12,
                forall|p: Pattern| p.place() < i ==> #[trigger] p.text() != name@,
            decreases 12 - i,
        {
            let p: Pattern = Pattern::at(i);
            if same_text(p.name(), name) {
                return Some(p);
            }
            assert forall|q: Pattern| q.place() < i + 1 implies #[trigger] q.text() != name@ by {
                if q.place() == i {
                    assert(q == p);
                }
            }
            i += 1;
        }
        None
    }
}

impl ElementType {
    /// The name of the type.
    pub open spec fn text(self) -> Seq<char> {
        match self {
            ElementType::Int32 => "int32"@,
            ElementType::Double => "double"@,
            ElementType::Int64 => "int64"@,
            ElementType::Text => "string"@,
        }
    }

    /// The name of the type.
    pub fn name(self) -> (r: &'static str)
        ensures
            r@ == self.text(),
    {
        match self {
            ElementType::Int32 => "int32",
            ElementType::Double => "double",
            ElementType::Int64 => "int64",
            ElementType::Text => "string",
        }
    }

    /// Types of one name are one.
    pub proof fn names_apart(self, other: ElementType)
        ensures
            self.text() == other.text() ==> self == other,
    {
        reveal_strlit("int32");
        reveal_strlit("double");
        reveal_strlit("int64");
        reveal_strlit("string");
        assert("int32"@.len() == 5 && "int32"@[0] == 'i' && "int32"@[1] == 'n' && "int32"@[3] == '3');
        assert("double"@.len() == 6 && "double"@[0] == 'd' && "double"@[1] == 'o' && "double"@[3] == 'b');
        assert("int64"@.len() == 5 && "int64"@[0] == 'i' && "int64"@[1] == 'n' && "int64"@[3] == '6');
        assert("string"@.len() == 6 && "string"@[0] == 's' && "string"@[1] == 't' && "string"@[3] == 'i');
    }

    /// The type of a name; `None` for a name that is none.
    pub fn parse(name: &str) -> (r: Option<ElementType>)
        ensures
            r matches Some(p) ==> p.text() == name@,
            r is None ==> forall|p: ElementType| #[trigger] p.text() != name@,
    {
        if same_text(name, "int32") {
            Some(ElementType::Int32)
        } else if same_text(name, "double") {
            Some(ElementType::Double)
        } else if same_text(name, "int64") {
            Some(ElementType::Int64)
        } else if same_text(name, "string") {
            Some(ElementType::Text)
        } else {
            None
        }
    }
}

/// Whether a dataset is measured for an element type.
pub fn dataset_applies(name: &str, ty: &str) -> (r: bool)
    ensures
        r == (name@ != "sparse_bits"@ || ty@ == "int32"@),
{
    !same_text(name, "sparse_bits") || same_text(ty, "int32")
}

/// `n` keys one after the other, the first from draw number `d` on, and how many
/// draws they take.
pub open spec fn repeated(f: spec_fn(nat) -> (Seq<LeafModel>, nat), d: nat, n: nat) -> (Seq<Seq<LeafModel>>, nat)
    decreases n,
{
    if n == 0 {
        (Seq::empty(), 0)
    } else {
        let t = repeated(f, d, (n - 1) as nat);
        let k = f(d + t.1);
        (t.0.push(k.0), t.1 + k.1)
    }
}

/// `n` keys of a source.
pub open spec fn source_keys<G: KeyGen>(source: Source, seed: u64, n: nat) -> (Seq<Seq<LeafModel>>, nat) {
    repeated(|d: nat| G::key_at(source, seed, d), 0, n)
}

/// The keys in order.
pub open spec fn in_key_order(s: Seq<Seq<LeafModel>>) -> Seq<Seq<LeafModel>> {
    choose|t: Seq<Seq<LeafModel>>| #[trigger] permutation(s, t) && sorted(|x: Seq<LeafModel>, y: Seq<LeafModel>| key_le(x, y), t)
}

/// Two elements change places.
pub open spec fn exchanged<T>(s: Seq<T>, i: int, j: int) -> Seq<T> {
    s.update(i, s[j]).update(j, s[i])
}

/// `k` pairs of elements change places, drawn from draw number `d` on.
pub open spec fn shuffled(s: Seq<Seq<LeafModel>>, seed: u64, d: nat, k: nat) -> (Seq<Seq<LeafModel>>, nat)
    decreases k,
{
    if k == 0 {
        (s, 0)
    } else {
        let t = shuffled(s, seed, d, (k - 1) as nat);
        let last = (s.len() - 1) as u64;
        let i = uniform_at(seed, d + t.1, 0, last);
        let j = uniform_at(seed, d + t.1 + i.1, 0, last);
        (exchanged(t.0, i.0 as int, j.0 as int), t.1 + i.1 + j.1)
    }
}

/// A run of `n` ascending keys, the next of which is that of `key`.
pub open spec fn run_keys<G: KeyGen>(seed: u64, d: nat, key: int, n: nat) -> (Seq<Seq<LeafModel>>, nat)
    decreases n,
{
    if n == 0 {
        (Seq::empty(), 0)
    } else {
        let u = uniform_at(seed, d, 0, 10);
        let t = run_keys::<G>(seed, d + u.1, key + u.0, (n - 1) as nat);
        (seq![G::int_key(key as i64)] + t.0, t.1 + u.1)
    }
}

/// Ascending runs, `left` keys in all.
pub open spec fn runs_keys<G: KeyGen>(seed: u64, d: nat, left: nat) -> Seq<Seq<LeafModel>>
    decreases left,
{
    if left == 0 {
        Seq::empty()
    } else {
        let u = uniform_at(seed, d, 16, 2000);
        let n: nat = if u.0 < left {
            u.0 as nat
        } else {
            left
        };
        let k = uniform_signed_at(seed, d + u.1, -100000i64, 100000);
        let t = run_keys::<G>(seed, d + u.1 + k.1, k.0 as int, n);
        if n == 0 {
            Seq::empty()
        } else {
            t.0 + runs_keys::<G>(seed, d + u.1 + k.1 + t.1, (left - n) as nat)
        }
    }
}

/// The keys of a dataset.
pub open spec fn dataset_keys<G: KeyGen>(p: Pattern, n: nat, seed: u64) -> Seq<Seq<LeafModel>> {
    let random = source_keys::<G>(Source::Random, seed, n);
    match p {
        Pattern::Random => random.0,
        Pattern::Sorted => in_key_order(random.0),
        Pattern::Reverse => in_key_order(random.0).reverse(),
        Pattern::NearlySorted => if n <= 1 {
            in_key_order(random.0)
        } else {
            shuffled(
                in_key_order(random.0),
                seed,
                random.1,
                if n < 200 {
                    1
                } else {
                    n / 100
                },
            ).0
        },
        Pattern::FewUnique => {
            let pool = source_keys::<G>(Source::Random, seed, 100);
            Seq::new(n, |i: int| pool.0[(draw(seed, (pool.1 + i) as nat) % 100) as int])
        },
        Pattern::AllEqual => Seq::new(n, |i: int| G::int_key(42)),
        Pattern::Runs => runs_keys::<G>(seed, 0, n),
        Pattern::OrganPipe => Seq::new(
            n,
            |i: int|
                G::int_key(
                    (if i < n / 2 {
                        i
                    } else {
                        n - i
                    }) as i64,
                ),
        ),
        Pattern::SmallRange => source_keys::<G>(Source::SmallRange, seed, n).0,
        Pattern::Sawtooth => Seq::new(n, |i: int| G::int_key((i % 1000) as i64)),
        Pattern::Prefixed => source_keys::<G>(Source::Prefixed, seed, n).0,
        Pattern::SparseBits => source_keys::<G>(Source::SparseBits, seed, n).0,
    }
}

// ---- how the datasets hang together --------------------------------------------------------------

proof fn lemma_first_within(seed: u64, d: nat, mask: u64, range: u64, left: nat)
    ensures
        first_within(seed, d, mask, range, left).0 <= range,
    decreases left,
{
    if left > 0 {
        lemma_first_within(seed, d + 1, mask, range, (left - 1) as nat);
    }
}

/// A uniform draw lies in its range.
pub proof fn uniform_draw_lies_within(seed: u64, d: nat, lo: u64, hi: u64)
    requires
        lo <= hi,
    ensures
        lo <= uniform_at(seed, d, lo, hi).0 <= hi,
{
    let range = hi.wrapping_sub(lo);
    lemma_first_within(seed, d, mask_over(range), range, u64::MAX as nat);
}

/// Two elements that change places leave a permutation.
pub proof fn lemma_exchanged<T>(s: Seq<T>, i: int, j: int)
    requires
        0 <= i < s.len(),
        0 <= j < s.len(),
    ensures
        permutation(s, exchanged(s, i, j)),
        exchanged(s, i, j).len() == s.len(),
{
    let t = s.update(i, s[j]);
    vstd::seq_lib::to_multiset_update(s, i, s[j]);
    vstd::seq_lib::to_multiset_update(t, j, s[i]);
    s.to_multiset_ensures();
    t.to_multiset_ensures();
    assert(s.contains(s[i]) && s.contains(s[j]));
    assert(t[j] == s[j]);
    assert(t.contains(t[j]));
    assert(exchanged(s, i, j).to_multiset() =~= s.to_multiset());
}

proof fn lemma_shuffled(s: Seq<Seq<LeafModel>>, seed: u64, d: nat, k: nat)
    requires
        0 < s.len() <= u64::MAX,
    ensures
        permutation(s, shuffled(s, seed, d, k).0),
        shuffled(s, seed, d, k).0.len() == s.len(),
    decreases k,
{
    if k > 0 {
        lemma_shuffled(s, seed, d, (k - 1) as nat);
        let t = shuffled(s, seed, d, (k - 1) as nat);
        let last = (s.len() - 1) as u64;
        let i = uniform_at(seed, d + t.1, 0, last);
        uniform_draw_lies_within(seed, d + t.1, 0, last);
        uniform_draw_lies_within(seed, d + t.1 + i.1, 0, last);
        let j = uniform_at(seed, d + t.1 + i.1, 0, last);
        lemma_exchanged(t.0, i.0 as int, j.0 as int);
    }
}

/// Keys can be put in order.
proof fn lemma_in_key_order(s: Seq<Seq<LeafModel>>)
    ensures
        permutation(s, in_key_order(s)),
        sorted(|x: Seq<LeafModel>, y: Seq<LeafModel>| key_le(x, y), in_key_order(s)),
{
    let le = |x: Seq<LeafModel>, y: Seq<LeafModel>| key_le(x, y);
    let id = |x: Seq<LeafModel>| x;
    lemma_by_leaves_total(id);
    assert(le =~= by_leaves(id));
    assert forall|x: Seq<LeafModel>, y: Seq<LeafModel>| (#[trigger] le(x, y) || le(y, x)) && (le(x, y) && le(y, x) ==> x == y) by {
        key_order_total(x, y);
    }
    assert(vstd::relations::total_ordering(le));
    s.lemma_sort_by_ensures(le);
    let t = s.sort_by(le);
    assert forall|i: int, j: int| 0 <= i <= j < t.len() implies le(#[trigger] t[i], #[trigger] t[j]) by {
        key_order_total(t[i], t[i]);
    }
    assert(permutation(s, t) && sorted(le, t));
}

/// The dataset "sorted" holds the keys of "random" in order, and "reverse" holds
/// those of "sorted" from the last to the first.
pub proof fn sorted_and_reverse_come_from_random<G: KeyGen>(n: nat, seed: u64)
    ensures
        permutation(dataset_keys::<G>(Pattern::Random, n, seed), dataset_keys::<G>(Pattern::Sorted, n, seed)),
        sorted(|x: Seq<LeafModel>, y: Seq<LeafModel>| key_le(x, y), dataset_keys::<G>(Pattern::Sorted, n, seed)),
        dataset_keys::<G>(Pattern::Reverse, n, seed) == dataset_keys::<G>(Pattern::Sorted, n, seed).reverse(),
{
    lemma_in_key_order(source_keys::<G>(Source::Random, seed, n).0);
}

/// The dataset "nearly_sorted" holds the keys of "sorted", some of them in other
/// places.
pub proof fn nearly_sorted_is_a_permutation_of_sorted<G: KeyGen>(n: nat, seed: u64)
    requires
        n <= u64::MAX,
    ensures
        permutation(dataset_keys::<G>(Pattern::Sorted, n, seed), dataset_keys::<G>(Pattern::NearlySorted, n, seed)),
{
    let random = source_keys::<G>(Source::Random, seed, n);
    lemma_repeated_len(|d: nat| G::key_at(Source::Random, seed, d), 0, n);
    lemma_in_key_order(random.0);
    lemma_permutation_len(random.0, in_key_order(random.0));
    if n > 1 {
        lemma_shuffled(
            in_key_order(random.0),
            seed,
            random.1,
            if n < 200 {
                1
            } else {
                n / 100
            },
        );
    }
}

/// The leaves of keys.
pub open spec fn leaves_all<K: Key>(s: Seq<K>) -> Seq<Seq<LeafModel>> {
    s.map_values(|k: K| k.leaves())
}

pub fn source_all<G: KeyGen>(source: Source, rng: &mut Mt19937_64, n: usize) -> (v: Vec<G::Key>)
    requires
        old(rng).wf(),
        old(rng).drawn() == 0,
    ensures
        final(rng).wf(),
        final(rng).seed() == old(rng).seed(),
        (leaves_all(v@), final(rng).drawn()) == source_keys::<G>(source, old(rng).seed(), n as nat),
{
    let ghost seed = rng.seed();
    let mut v: Vec<G::Key> = Vec::with_capacity(n);
    assert(leaves_all(v@) =~= Seq::<Seq<LeafModel>>::empty());
    while v.len() < n
        invariant
            rng.wf(),
            rng.seed() == seed,
            v@.len() <= n,
            (leaves_all(v@), rng.drawn()) == source_keys::<G>(source, seed, v@.len()),
        decreases n - v@.len(),
    {
        let ghost before = v@;
        v.push(G::generate(source, rng));
        proof {
            assert(leaves_all(v@) =~= leaves_all(before).push(v@.last().leaves()));
        }
    }
    v
}

/// Keys have one order.
proof fn lemma_key_order_unique(s: Seq<Seq<LeafModel>>, t: Seq<Seq<LeafModel>>)
    requires
        permutation(s, t),
        sorted(|x: Seq<LeafModel>, y: Seq<LeafModel>| key_le(x, y), t),
    ensures
        in_key_order(s) == t,
{
    let le = |x: Seq<LeafModel>, y: Seq<LeafModel>| key_le(x, y);
    let u = in_key_order(s);
    let id = |x: Seq<LeafModel>| x;
    lemma_by_leaves_total(id);
    assert(le =~= by_leaves(id));
    assert(permutation(s, u) && sorted(le, u));
    assert forall|i: int, j: int| 0 <= i < s.len() && 0 <= j < s.len() && tied(le, #[trigger] s[i], #[trigger] s[j]) implies s[i] == s[j] by {
        key_order_total(s[i], s[j]);
    }
    lemma_antisymmetric_stable(le, s, t);
    lemma_antisymmetric_stable(le, s, u);
    stable_sort_is_unique(le, s, t, u);
}

fn sort_keys<K: Key>(v: &mut Vec<K>)
    requires
        1 <= K::parts().len() <= MAX_PARTS,
    ensures
        leaves_all(final(v)@) == in_key_order(leaves_all(old(v)@)),
        final(v)@.len() == old(v)@.len(),
{
    let ghost before = v@;
    sort(v);
    proof {
        let f = |k: K| k.leaves();
        lemma_permutation_len(before, v@);
        lemma_map_permutation(before, v@, f);
        let le = |x: Seq<LeafModel>, y: Seq<LeafModel>| key_le(x, y);
        let t = leaves_all(v@);
        assert forall|i: int, j: int| 0 <= i <= j < t.len() implies le(#[trigger] t[i], #[trigger] t[j]) by {
            assert(by_leaves(f)(v@[i], v@[j]));
        }
        lemma_key_order_unique(leaves_all(before), t);
    }
}

fn run_all_keys<G: KeyGen>(rng: &mut Mt19937_64, n: usize) -> (v: Vec<G::Key>)
    requires
        old(rng).wf(),
        old(rng).drawn() == 0,
    ensures
        leaves_all(v@) == runs_keys::<G>(old(rng).seed(), 0, n as nat),
{
    let ghost seed = rng.seed();
    let ghost whole = runs_keys::<G>(seed, 0, n as nat);
    let mut v: Vec<G::Key> = Vec::with_capacity(n);
    let mut left: usize = n;
    assert(leaves_all(v@) + whole =~= whole);
    while left > 0
        invariant
            rng.wf(),
            rng.seed() == seed,
            leaves_all(v@) + runs_keys::<G>(seed, rng.drawn(), left as nat) == whole,
        decreases left,
    {
        let ghost d = rng.drawn();
        let ghost start = leaves_all(v@);
        let u: u64 = uniform_u64(rng, 16, 2000);
        let l: usize = if u < left as u64 {
            u as usize
        } else {
            left
        };
        let mut key: i64 = uniform_i64(rng, -100000, 100000);
        let ghost run = run_keys::<G>(seed, rng.drawn(), key as int, l as nat);
        let ghost from = rng.drawn();
        let mut k: usize = 0;
        assert(start + run.0 =~= leaves_all(v@) + run.0);
        while k < l
            invariant
                k <= l <= 2000,
                rng.wf(),
                rng.seed() == seed,
                rng.drawn() >= from,
                -100000 <= key <= 100000 + 10 * k,
                ({
                    let t = run_keys::<G>(seed, rng.drawn(), key as int, (l - k) as nat);
                    leaves_all(v@) + t.0 == start + run.0 && t.1 + rng.drawn() - from == run.1
                }),
            decreases l - k,
        {
            let ghost before = v@;
            let ghost t = run_keys::<G>(seed, rng.drawn(), key as int, (l - k) as nat);
            v.push(G::from_int(key));
            key += uniform_u64(rng, 0, 10) as i64;
            k += 1;
            proof {
                let next = run_keys::<G>(seed, rng.drawn(), key as int, (l - k) as nat);
                assert(leaves_all(v@) =~= leaves_all(before).push(v@.last().leaves()));
                assert(leaves_all(v@) + next.0 =~= leaves_all(before) + t.0);
            }
        }
        proof {
            assert(leaves_all(v@) =~= start + run.0);
            let rest = runs_keys::<G>(seed, rng.drawn(), (left - l) as nat);
            assert(runs_keys::<G>(seed, d, left as nat) == run.0 + rest);
            assert(start + (run.0 + rest) =~= leaves_all(v@) + rest);
        }
        left -= l;
    }
    assert(leaves_all(v@) =~= whole);
    v
}

/// The keys of the dataset `name`, of `n` elements, from `seed`. `None` for a
/// name that is none.
pub fn generate_keys<G: KeyGen>(name: &str, n: usize, seed: u64) -> (r: Option<Vec<G::Key>>)
    requires
        n <= 0xFFFF_FFFF_FFFF,
    ensures
        r is Some <==> exists|p: Pattern| #[trigger] p.text() == name@,
        r matches Some(v) ==> v@.len() == n,
        r matches Some(v) ==> exists|p: Pattern| #[trigger] p.text() == name@ && leaves_all(v@) == dataset_keys::<G>(p, n as nat, seed),
{
    match Pattern::parse(name) {
        Some(p) => Some(pattern_keys::<G>(p, n, seed)),
        None => None,
    }
}

/// The keys of a pattern.
pub fn pattern_keys<G: KeyGen>(p: Pattern, n: usize, seed: u64) -> (v: Vec<G::Key>)
    requires
        n <= 0xFFFF_FFFF_FFFF,
    ensures
        leaves_all(v@) == dataset_keys::<G>(p, n as nat, seed),
        v@.len() == n,
{
    let mut rng: Mt19937_64 = Mt19937_64::new(seed);
    proof {
        G::key_shape();
        lemma_repeated_len(|d: nat| G::key_at(Source::Random, seed, d), 0, n as nat);
        lemma_repeated_len(|d: nat| G::key_at(Source::Random, seed, d), 0, 100);
        lemma_repeated_len(|d: nat| G::key_at(Source::SmallRange, seed, d), 0, n as nat);
        lemma_repeated_len(|d: nat| G::key_at(Source::Prefixed, seed, d), 0, n as nat);
        lemma_repeated_len(|d: nat| G::key_at(Source::SparseBits, seed, d), 0, n as nat);
    }
    match p {
        Pattern::Random => source_all::<G>(Source::Random, &mut rng, n),
        Pattern::Sorted => {
            let mut v: Vec<G::Key> = source_all::<G>(Source::Random, &mut rng, n);
            sort_keys(&mut v);
            v
        },
        Pattern::Reverse => {
            let mut v: Vec<G::Key> = source_all::<G>(Source::Random, &mut rng, n);
            sort_keys(&mut v);
            let ghost t = v@;
            reverse_range(&mut v, 0, n);
            proof {
                assert(t.take(0) + t.subrange(0, n as int).reverse() + t.skip(n as int) =~= t.reverse());
                assert(leaves_all(t.reverse()) =~= leaves_all(t).reverse());
            }
            v
        },
        Pattern::NearlySorted => {
            let mut v: Vec<G::Key> = source_all::<G>(Source::Random, &mut rng, n);
            sort_keys(&mut v);
            if n > 1 {
                let swaps: usize = if n < 200 {
                    1
                } else {
                    n / 100
                };
                swap_some(&mut v, &mut rng, swaps);
            }
            v
        },
        Pattern::FewUnique => {
            let pool: Vec<G::Key> = source_all::<G>(Source::Random, &mut rng, 100);
            let ghost d = rng.drawn();
            let mut v: Vec<G::Key> = Vec::with_capacity(n);
            while v.len() < n
                invariant
                    rng.wf(),
                    rng.seed() == seed,
                    rng.drawn() == d + v@.len(),
                    v@.len() <= n,
                    pool@.len() == 100,
                    forall|i: int| 0 <= i < v@.len() ==> (#[trigger] v@[i]).leaves() == leaves_all(pool@)[(draw(seed, (d + i) as nat) % 100) as int],
                decreases n - v@.len(),
            {
                let k: usize = (rng.next_u64() % 100) as usize;
                v.push(G::again(&pool[k]));
            }
            assert(leaves_all(v@) =~= dataset_keys::<G>(p, n as nat, seed));
            v
        },
        Pattern::AllEqual => {
            let mut v: Vec<G::Key> = Vec::with_capacity(n);
            while v.len() < n
                invariant
                    v@.len() <= n,
                    forall|i: int| 0 <= i < v@.len() ==> (#[trigger] v@[i]).leaves() == G::int_key(42),
                decreases n - v@.len(),
            {
                v.push(G::from_int(42));
            }
            assert(leaves_all(v@) =~= dataset_keys::<G>(p, n as nat, seed));
            v
        },
        Pattern::Runs => {
            let v: Vec<G::Key> = run_all_keys::<G>(&mut rng, n);
            proof {
                lemma_runs_len::<G>(seed, 0, n as nat);
                assert(leaves_all(v@).len() == v@.len());
            }
            v
        },
        Pattern::OrganPipe => {
            let half: usize = n / 2;
            let mut v: Vec<G::Key> = Vec::with_capacity(n);
            while v.len() < n
                invariant
                    v@.len() <= n <= 0xFFFF_FFFF_FFFF,
                    half == n / 2,
                    forall|i: int|
                        0 <= i < v@.len() ==> (#[trigger] v@[i]).leaves() == G::int_key(
                            (if i < half {
                                i
                            } else {
                                n - i
                            }) as i64,
                        ),
                decreases n - v@.len(),
            {
                let i: usize = v.len();
                v.push(
                    G::from_int(
                        (if i < half {
                            i
                        } else {
                            n - i
                        }) as i64,
                    ),
                );
            }
            assert(leaves_all(v@) =~= dataset_keys::<G>(p, n as nat, seed));
            v
        },
        Pattern::SmallRange => source_all::<G>(Source::SmallRange, &mut rng, n),
        Pattern::Sawtooth => {
            let mut v: Vec<G::Key> = Vec::with_capacity(n);
            while v.len() < n
                invariant
                    v@.len() <= n,
                    forall|i: int| 0 <= i < v@.len() ==> (#[trigger] v@[i]).leaves() == G::int_key((i % 1000) as i64),
                decreases n - v@.len(),
            {
                let i: usize = v.len();
                v.push(G::from_int((i % 1000) as i64));
            }
            assert(leaves_all(v@) =~= dataset_keys::<G>(p, n as nat, seed));
            v
        },
        Pattern::Prefixed => source_all::<G>(Source::Prefixed, &mut rng, n),
        Pattern::SparseBits => source_all::<G>(Source::SparseBits, &mut rng, n),
    }
}

proof fn lemma_repeated_len(f: spec_fn(nat) -> (Seq<LeafModel>, nat), d: nat, n: nat)
    ensures
        repeated(f, d, n).0.len() == n,
    decreases n,
{
    if n > 0 {
        lemma_repeated_len(f, d, (n - 1) as nat);
    }
}

proof fn lemma_run_len<G: KeyGen>(seed: u64, d: nat, key: int, n: nat)
    ensures
        run_keys::<G>(seed, d, key, n).0.len() == n,
    decreases n,
{
    if n > 0 {
        let u = uniform_at(seed, d, 0, 10);
        lemma_run_len::<G>(seed, d + u.1, key + u.0, (n - 1) as nat);
    }
}

/// A draw of the length of a run is one.
proof fn lemma_run_drawn(seed: u64, d: nat)
    ensures
        16 <= uniform_at(seed, d, 16, 2000).0 <= 2000,
{
    lemma_within(seed, d, mask_over(1984), 1984, u64::MAX as nat);
}

proof fn lemma_within(seed: u64, d: nat, mask: u64, range: u64, left: nat)
    ensures
        first_within(seed, d, mask, range, left).0 <= range,
    decreases left,
{
    if left > 0 && draw(seed, d) & mask > range {
        lemma_within(seed, d + 1, mask, range, (left - 1) as nat);
    }
}

proof fn lemma_runs_len<G: KeyGen>(seed: u64, d: nat, left: nat)
    ensures
        runs_keys::<G>(seed, d, left).len() == left,
    decreases left,
{
    if left > 0 {
        let u = uniform_at(seed, d, 16, 2000);
        lemma_run_drawn(seed, d);
        let n: nat = if u.0 < left {
            u.0 as nat
        } else {
            left
        };
        let k = uniform_signed_at(seed, d + u.1, -100000i64, 100000);
        let t = run_keys::<G>(seed, d + u.1 + k.1, k.0 as int, n);
        lemma_run_len::<G>(seed, d + u.1 + k.1, k.0 as int, n);
        lemma_runs_len::<G>(seed, d + u.1 + k.1 + t.1, (left - n) as nat);
    }
}

fn swap_some<K: Key>(v: &mut Vec<K>, rng: &mut Mt19937_64, swaps: usize)
    requires
        old(rng).wf(),
        1 < old(v)@.len() <= 0xFFFF_FFFF_FFFF,
    ensures
        leaves_all(final(v)@) == shuffled(leaves_all(old(v)@), old(rng).seed(), old(rng).drawn(), swaps as nat).0,
        final(v)@.len() == old(v)@.len(),
{
    let ghost s = leaves_all(v@);
    let ghost d = rng.drawn();
    let ghost seed = rng.seed();
    let n: usize = v.len();
    let mut k: usize = 0;
    while k < swaps
        invariant
            k <= swaps,
            rng.wf(),
            rng.seed() == seed,
            1 < n == v@.len() == s.len(),
            rng.drawn() >= d,
            (leaves_all(v@), (rng.drawn() - d) as nat) == shuffled(s, seed, d, k as nat),
        decreases swaps - k,
    {
        let ghost before = v@;
        let i: usize = uniform_u64(rng, 0, n as u64 - 1) as usize;
        let j: usize = uniform_u64(rng, 0, n as u64 - 1) as usize;
        swap_at(v, i, j);
        k += 1;
        proof {
            assert(leaves_all(v@) =~= exchanged(leaves_all(before), i as int, j as int));
        }
    }
}

// ---- elements ------------------------------------------------------------------------------------

/// A generated input.
pub struct Dataset<T> {
    pub items: Vec<T>,
}

/// Elements that are built from keys.
pub trait Generate: Item2 {
    /// Their keys.
    type Keys: KeyGen;

    /// The element of a key and its number.
    spec fn item_of(k: <Self::Keys as KeyGen>::Key, i: u32) -> Self;

    /// The element of a key and its number.
    fn item(k: &<Self::Keys as KeyGen>::Key, i: u32) -> (r: Self)
        ensures
            r == Self::item_of(*k, i),
    ;
}

impl Generate for Item {
    type Keys = Int32Keys;

    open spec fn item_of(k: i32, i: u32) -> Item {
        Item { key: k, id: i }
    }

    fn item(k: &i32, i: u32) -> (r: Item) {
        Item { key: *k, id: i }
    }
}

impl Generate for I64Item {
    type Keys = Int64Keys;

    open spec fn item_of(k: i64, i: u32) -> I64Item {
        I64Item { key: k, id: i, pad: 0 }
    }

    fn item(k: &i64, i: u32) -> (r: I64Item) {
        I64Item { key: *k, id: i, pad: 0 }
    }
}

/// The dataset `name` of `n` elements from `seed`. `None` for a name that is
/// none.
pub fn generate<T: Generate>(name: &str, n: usize, seed: u64) -> (r: Option<Dataset<T>>)
    requires
        n <= 0xFFFF_FFFF,
    ensures
        r is Some <==> exists|p: Pattern| #[trigger] p.text() == name@,
        r matches Some(d) ==> exists|p: Pattern, keys: Seq<<T::Keys as KeyGen>::Key>|
            #[trigger] p.text() == name@ && #[trigger] leaves_all(keys) == dataset_keys::<T::Keys>(p, n as nat, seed) && d.items@ == numbered::<T>(keys),
{
    match generate_keys::<T::Keys>(name, n, seed) {
        Some(keys) => {
            Some(Dataset { items: number_items(&keys) })
        },
        None => None,
    }
}

/// The elements of keys, numbered.
pub open spec fn numbered<T: Generate>(keys: Seq<<T::Keys as KeyGen>::Key>) -> Seq<T> {
    Seq::new(keys.len(), |i: int| T::item_of(keys[i], i as u32))
}

fn number_items<T: Generate>(keys: &Vec<<T::Keys as KeyGen>::Key>) -> (r: Vec<T>)
    requires
        keys@.len() <= 0xFFFF_FFFF,
    ensures
        r@ == numbered::<T>(keys@),
{
    let n: usize = keys.len();
    let mut r: Vec<T> = Vec::with_capacity(n);
    while r.len() < n
        invariant
            r@.len() <= n == keys@.len(),
            n <= 0xFFFF_FFFF,
            forall|i: int| 0 <= i < r@.len() ==> #[trigger] r@[i] == T::item_of(keys@[i], i as u32),
        decreases n - r@.len(),
    {
        let i: usize = r.len();
        r.push(T::item(&keys[i], i as u32));
    }
    assert(r@ =~= numbered::<T>(keys@));
    r
}

/// The bytes of string keys in one piece.
pub struct TextPool {
    bytes: Vec<u8>,
    ends: Vec<usize>,
}

/// Where the key `i` begins, where `ends` says where each one ends.
pub open spec fn begin_of(ends: Seq<usize>, i: int) -> int {
    if i <= 0 {
        0
    } else {
        ends[i - 1] as int
    }
}

/// The first `n` keys, one after the other.
pub open spec fn joined(keys: Seq<Vec<u8>>, n: int) -> Seq<u8>
    decreases n,
{
    if n <= 0 {
        Seq::empty()
    } else {
        joined(keys, n - 1) + keys[n - 1]@
    }
}

impl TextPool {
    /// The keys.
    pub closed spec fn texts(&self) -> Seq<Seq<u8>> {
        Seq::new(self.ends@.len(), |i: int| self.bytes@.subrange(begin_of(self.ends@, i), self.ends@[i] as int))
    }

    /// The piece.
    pub closed spec fn piece(&self) -> Seq<u8> {
        self.bytes@
    }

    /// The bytes of every key lie in the piece.
    pub closed spec fn wf(&self) -> bool {
        forall|i: int| 0 <= i < self.ends@.len() ==> begin_of(self.ends@, i) <= #[trigger] self.ends@[i] <= self.bytes@.len()
    }

    /// The keys, one after the other.
    pub fn new(keys: &Vec<Vec<u8>>) -> (r: Self)
        ensures
            r.wf(),
            r.texts().len() == keys@.len(),
            forall|i: int| 0 <= i < keys@.len() ==> #[trigger] r.texts()[i] == keys@[i]@,
            r.piece() == joined(keys@, keys@.len() as int),
    {
        let mut p = TextPool { bytes: Vec::new(), ends: Vec::new() };
        let mut i: usize = 0;
        while i < keys.len()
            invariant
                i <= keys@.len(),
                p.wf(),
                p.ends@.len() == i,
                begin_of(p.ends@, i as int) == p.bytes@.len(),
                p.bytes@ == joined(keys@, i as int),
                forall|k: int| 0 <= k < i ==> #[trigger] p.texts()[k] == keys@[k]@,
            decreases keys@.len() - i,
        {
            let ghost before = p;
            p.bytes.extend_from_slice(keys[i].as_slice());
            p.ends.push(p.bytes.len());
            proof {
                assert(p.bytes@ =~= before.bytes@ + keys@[i as int]@);
                assert forall|k: int| 0 <= k < i + 1 implies begin_of(p.ends@, k) <= #[trigger] p.ends@[k] <= p.bytes@.len() by {
                    if k < i {
                        assert(begin_of(before.ends@, k) == begin_of(p.ends@, k) && before.ends@[k] == p.ends@[k]);
                    }
                }
                assert forall|k: int| 0 <= k < i + 1 implies #[trigger] p.texts()[k] == keys@[k]@ by {
                    if k < i {
                        assert(before.ends@[k] == p.ends@[k] && begin_of(before.ends@, k) == begin_of(p.ends@, k));
                        assert(begin_of(before.ends@, k) >= 0);
                        assert(p.texts()[k] =~= before.texts()[k]);
                    } else {
                        assert(p.texts()[k] =~= keys@[k]@);
                    }
                }
            }
            i += 1;
        }
        p
    }

    /// The piece.
    pub fn bytes(&self) -> (r: &[u8])
        ensures
            r@ == self.piece(),
    {
        self.bytes.as_slice()
    }

    /// The string elements of the keys, numbered.
    pub fn items<'a>(&'a self) -> (r: Vec<StrItem<'a>>)
        requires
            self.wf(),
            self.texts().len() <= 0xFFFF_FFFF,
        ensures
            r@.len() == self.texts().len(),
            forall|i: int| 0 <= i < r@.len() ==> (#[trigger] r@[i]).text@ == self.texts()[i] && r@[i].id == i,
    {
        let n: usize = self.ends.len();
        let mut r: Vec<StrItem<'a>> = Vec::with_capacity(n);
        let mut from: usize = 0;
        while r.len() < n
            invariant
                self.wf(),
                r@.len() <= n == self.ends@.len(),
                n <= 0xFFFF_FFFF,
                from == begin_of(self.ends@, r@.len() as int),
                forall|i: int| 0 <= i < r@.len() ==> (#[trigger] r@[i]).text@ == self.texts()[i] && r@[i].id == i,
            decreases n - r@.len(),
        {
            let i: usize = r.len();
            let to: usize = self.ends[i];
            assert(begin_of(self.ends@, i as int) <= self.ends@[i as int] <= self.bytes@.len());
            let text: &'a [u8] = vstd::slice::slice_subrange(self.bytes.as_slice(), from, to);
            r.push(StrItem { text, id: i as u32 });
            from = to;
        }
        r
    }
}

/// The string elements of keys, numbered.
pub fn str_items<'a>(keys: &'a Vec<Vec<u8>>) -> (r: Vec<StrItem<'a>>)
    requires
        keys@.len() <= 0xFFFF_FFFF,
    ensures
        r@.len() == keys@.len(),
        forall|i: int| 0 <= i < r@.len() ==> (#[trigger] r@[i]).text@ == keys@[i]@ && r@[i].id == i,
{
    let n: usize = keys.len();
    let mut r: Vec<StrItem<'a>> = Vec::with_capacity(n);
    while r.len() < n
        invariant
            r@.len() <= n == keys@.len(),
            n <= 0xFFFF_FFFF,
            forall|i: int| 0 <= i < r@.len() ==> (#[trigger] r@[i]).text@ == keys@[i]@ && r@[i].id == i,
        decreases n - r@.len(),
    {
        let i: usize = r.len();
        r.push(StrItem { text: keys[i].as_slice(), id: i as u32 });
    }
    r
}

} // verus!
