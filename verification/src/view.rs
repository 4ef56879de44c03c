//! The element contract, the memory and telemetry interfaces, and the small
//! array routines that the algorithm is built from.
use crate::bits::{
    lemma_halves, lemma_pext_bound, lemma_pext_step, lemma_pow2_32, lemma_pow2_fits, ones, pext,
};
use crate::order::{stable_sort_of, tied, total_preorder};
use vstd::arithmetic::power2::{lemma2_to64_rest, lemma_pow2_pos, lemma_pow2_unfold, pow2};
use vstd::prelude::*;

verus! {

// ---- radix keys ------------------------------------------------------------------------------

/// An unsigned 32- or 64-bit radix key.
pub trait RadixKey: Copy {
    /// Width in bits.
    const BITS: u32;

    /// The key as a 64-bit word.
    spec fn word(self) -> u64;

    /// A key fits its width, and there is a key for every word that fits.
    proof fn word_fits(self)
        ensures
            Self::BITS == 32 || Self::BITS == 64,
            Self::BITS == 32 ==> self.word() <= 0xFFFF_FFFF,
    ;

    /// Widened.
    fn to_u64(self) -> (r: u64)
        ensures
            r == self.word(),
    ;

    /// Truncated.
    fn from_u64(v: u64) -> (r: Self)
        ensures
            r.word() == truncated(v, Self::BITS),
    ;

    /// Truncated to 32 bits.
    fn as_u32(self) -> (r: u32)
        ensures
            r == self.word() % 0x1_0000_0000,
    ;

    /// Wrapping subtraction.
    fn wsub(self, o: Self) -> (r: Self)
        ensures
            r.word() as int == (self.word() - o.word()) % modulus(Self::BITS),
    ;

    /// Wrapping addition.
    fn wadd(self, o: Self) -> (r: Self)
        ensures
            r.word() as int == (self.word() + o.word()) % modulus(Self::BITS),
    ;

    /// Number of set bits.
    fn count_ones(self) -> (r: u32)
        ensures
            r == ones(self.word()),
            r <= Self::BITS,
    ;

    /// Trailing zero bits; the width for zero.
    fn trailing_zeros(self) -> (r: u32)
        ensures
            r <= Self::BITS,
            self.word() == 0 <==> r == Self::BITS,
            self.word() as int % pow2(r as nat) as int == 0,
            self.word() != 0 ==> self.word() as int / pow2(r as nat) as int % 2 == 1,
    ;

    /// Leading zero bits; the width for zero.
    fn leading_zeros(self) -> (r: u32)
        ensures
            r <= Self::BITS,
            self.word() == 0 <==> r == Self::BITS,
            self.word() != 0 ==> pow2((Self::BITS - 1 - r) as nat) <= self.word() < pow2((Self::BITS - r) as nat),
    ;
}

/// The low `bits` bits of `v`, for widths of 32 and 64.
pub open spec fn truncated(v: u64, bits: u32) -> u64 {
    if bits == 32 {
        (v % 0x1_0000_0000) as u64
    } else {
        v
    }
}

/// Two to the width.
pub open spec fn modulus(bits: u32) -> int {
    if bits == 32 {
        0x1_0000_0000
    } else {
        0x1_0000_0000_0000_0000
    }
}

/// The number of set bits.
fn count_ones64(k: u64) -> (r: u32)
    ensures
        r == ones(k),
        r <= 64,
        k <= 0xFFFF_FFFF ==> r <= 32,
{
    let mut m: u64 = k;
    let mut c: u32 = 0;
    proof {
        lemma2_to64_rest();
        lemma_pow2_32();
        lemma_ones_bound(k, 64);
        if k <= 0xFFFF_FFFF {
            lemma_ones_bound(k, 32);
        }
    }
    while m != 0
        invariant
            c + ones(m) == ones(k),
            ones(k) <= 64,
        decreases m,
    {
        proof {
            lemma_pext_step(m, m);
        }
        m = m & (m - 1);
        c += 1;
    }
    c
}

proof fn lemma_ones_bound(k: u64, w: nat)
    requires
        k < pow2(w),
    ensures
        ones(k) <= w,
    decreases w,
{
    lemma_halves(k);
    if w == 0 {
        lemma_pow2_32();
    } else if k != 0 {
        lemma_pow2_unfold(w);
        lemma_ones_bound(k >> 1, (w - 1) as nat);
    }
}

/// The number of zero bits below the lowest set bit, at most `bits`.
fn trailing_zeros64(k: u64, bits: u32) -> (r: u32)
    requires
        bits <= 64,
        k < pow2(bits as nat),
    ensures
        r <= bits,
        k == 0 <==> r == bits,
        k as int % pow2(r as nat) as int == 0,
        k != 0 ==> k as int / pow2(r as nat) as int % 2 == 1,
{
    let mut m: u64 = k;
    let mut r: u32 = 0;
    proof {
        lemma_pow2_32();
        vstd::arithmetic::div_mod::lemma_div_by_self(1);
    }
    if k == 0 {
        proof {
            lemma_pow2_pos(bits as nat);
        }
        return bits;
    }
    while m & 1 == 0
        invariant
            m != 0,
            bits <= 64,
            r < bits,
            m < pow2((bits - r) as nat),
            k == m * pow2(r as nat),
        decreases m,
    {
        proof {
            lemma_halves(m);
            lemma_pow2_unfold((r + 1) as nat);
            lemma_pow2_unfold((bits - r) as nat);
            assert(2 * (m >> 1) * pow2(r as nat) == (m >> 1) * (2 * pow2(r as nat))) by (nonlinear_arith);
            if bits == r + 1 {
                lemma_pow2_32();
            }
        }
        m = m >> 1;
        r += 1;
    }
    proof {
        lemma_halves(m);
        lemma_pow2_pos(r as nat);
        vstd::arithmetic::div_mod::lemma_div_multiples_vanish(m as int, pow2(r as nat) as int);
        vstd::arithmetic::div_mod::lemma_mod_multiples_basic(m as int, pow2(r as nat) as int);
        assert(m * pow2(r as nat) == pow2(r as nat) * m) by (nonlinear_arith);
    }
    r
}

/// The number of zero bits above the highest set bit of a word of `bits`
/// bits.
fn leading_zeros64(k: u64, bits: u32) -> (r: u32)
    requires
        bits <= 64,
        k < pow2(bits as nat),
    ensures
        r <= bits,
        k == 0 <==> r == bits,
        k != 0 ==> pow2((bits - 1 - r) as nat) <= k < pow2((bits - r) as nat),
{
    let mut m: u64 = k;
    let mut n: u32 = 0;
    let ghost mut low: nat = 0;
    proof {
        lemma_pow2_32();
    }
    while m != 0
        invariant
            n <= bits <= 64,
            m < pow2((bits - n) as nat),
            k == m * pow2(n as nat) + low,
            low < pow2(n as nat),
            m == 0 ==> (k == 0 <==> n == 0),
            m == 0 && n > 0 ==> pow2((n - 1) as nat) <= k < pow2(n as nat),
        decreases m,
    {
        proof {
            lemma_halves(m);
            lemma_pow2_unfold((n + 1) as nat);
            if bits == n {
                lemma_pow2_32();
            }
            lemma_pow2_unfold((bits - n) as nat);
            let p = pow2(n as nat);
            let h = (m >> 1) as nat;
            let b = (m & 1) as nat;
            assert((2 * h + b) * p == h * (2 * p) + b * p) by (nonlinear_arith);
            assert(b * p <= p) by (nonlinear_arith)
                requires
                    b <= 1,
            ;
            if h == 0 {
                assert(b * p == p) by (nonlinear_arith)
                    requires
                        b == 1,
                ;
                assert(h * (2 * p) == 0) by (nonlinear_arith)
                    requires
                        h == 0,
                ;
            }
            low = (b * p + low) as nat;
        }
        m = m >> 1;
        n += 1;
    }
    bits - n
}

impl RadixKey for u32 {
    const BITS: u32 = 32;

    open spec fn word(self) -> u64 {
        self as u64
    }

    proof fn word_fits(self) {
        assert(<u32 as RadixKey>::BITS == 32);
        assert(self.word() == self);
    }

    fn to_u64(self) -> (r: u64) {
        self as u64
    }

    fn from_u64(v: u64) -> (r: Self) {
        (v % 0x1_0000_0000) as u32
    }

    fn as_u32(self) -> (r: u32) {
        self
    }

    fn wsub(self, o: Self) -> (r: Self) {
        self.wrapping_sub(o)
    }

    fn wadd(self, o: Self) -> (r: Self) {
        self.wrapping_add(o)
    }

    fn count_ones(self) -> (r: u32) {
        count_ones64(self as u64)
    }

    fn trailing_zeros(self) -> (r: u32) {
        proof {
            lemma_pow2_32();
        }
        trailing_zeros64(self as u64, 32)
    }

    fn leading_zeros(self) -> (r: u32) {
        proof {
            lemma_pow2_32();
        }
        leading_zeros64(self as u64, 32)
    }
}

impl RadixKey for u64 {
    const BITS: u32 = 64;

    open spec fn word(self) -> u64 {
        self
    }

    proof fn word_fits(self) {
        assert(<u64 as RadixKey>::BITS == 64);
        assert(self.word() == self);
    }

    fn to_u64(self) -> (r: u64) {
        self
    }

    fn from_u64(v: u64) -> (r: Self) {
        v
    }

    fn as_u32(self) -> (r: u32) {
        (self % 0x1_0000_0000) as u32
    }

    fn wsub(self, o: Self) -> (r: Self) {
        self.wrapping_sub(o)
    }

    fn wadd(self, o: Self) -> (r: Self) {
        self.wrapping_add(o)
    }

    fn count_ones(self) -> (r: u32) {
        count_ones64(self)
    }

    fn trailing_zeros(self) -> (r: u32) {
        proof {
            lemma2_to64_rest();
        }
        trailing_zeros64(self, 64)
    }

    fn leading_zeros(self) -> (r: u32) {
        proof {
            lemma2_to64_rest();
        }
        leading_zeros64(self, 64)
    }
}

/// Index of the top set bit.
pub fn highest_bit<K: RadixKey>(k: K) -> (r: u32)
    requires
        k.word() != 0,
    ensures
        r < K::BITS,
        pow2(r as nat) <= k.word() < pow2((r + 1) as nat),
        r == log2_of(k.word() as int),
{
    proof {
        k.word_fits();
    }
    let r: u32 = K::BITS - 1 - k.leading_zeros();
    proof {
        lemma_log2(k.word() as int, r as nat);
    }
    r
}

/// The bits of `k` that `mask` selects, compressed to the bottom, one step
/// per selected bit.
pub fn pext_soft<K: RadixKey>(k: K, mask: K) -> (r: K)
    ensures
        r.word() == pext(k.word(), mask.word()),
{
    let kw: u64 = k.to_u64();
    let mw: u64 = mask.to_u64();
    let mut out: u64 = 0;
    let mut bit: u64 = 1;
    let mut m: u64 = mw;
    proof {
        lemma_pext_bound(kw, mw);
        mask.word_fits();
        lemma_pow2_32();
        lemma2_to64_rest();
        lemma_ones_bound(mw, 64);
    }
    while m != 0
        invariant
            out + bit * pext(kw, m) == pext(kw, mw),
            pext(kw, mw) <= mw,
            ones(m) <= ones(mw) <= 64,
            m != 0 ==> bit == pow2((ones(mw) - ones(m)) as nat),
        decreases m,
    {
        let rest: u64 = m & (m - 1);
        proof {
            lemma_pext_step(kw, m);
            let p = pext(kw, rest);
            assert(bit * (2 * p) == (2 * bit) * p) by (nonlinear_arith);
            assert(bit * (1 + 2 * p) == bit + (2 * bit) * p) by (nonlinear_arith);
            assert((2 * bit) * p >= 0) by (nonlinear_arith);
            lemma_pow2_unfold((ones(mw) - ones(rest)) as nat);
            if rest != 0 {
                lemma_pext_step(kw, rest);
                lemma_pow2_fits((ones(mw) - ones(rest)) as nat);
            } else {
                assert(p == 0);
                assert((2 * bit) * p == 0) by (nonlinear_arith)
                    requires
                        p == 0,
                ;
                assert(bit * p == 0) by (nonlinear_arith)
                    requires
                        p == 0,
                ;
            }
        }
        if kw & (m ^ rest) != 0 {
            out = out + bit;
        }
        if rest != 0 {
            bit = bit * 2;
        }
        m = rest;
    }
    proof {
        assert(bit * pext(kw, m) == 0) by (nonlinear_arith)
            requires
                pext(kw, m) == 0,
        ;
    }
    K::from_u64(out)
}

// ---- elements --------------------------------------------------------------------------------

/// Lexicographic order of two word sequences from position `i` on; a
/// sequence that ends first goes first.
pub open spec fn lex_le_from(a: Seq<u64>, b: Seq<u64>, i: int) -> bool
    decreases a.len() - i,
{
    if i >= a.len() {
        true
    } else if i >= b.len() {
        false
    } else if a[i] != b[i] {
        a[i] < b[i]
    } else {
        lex_le_from(a, b, i + 1)
    }
}

/// Lexicographic order of two word sequences.
pub open spec fn lex_le(a: Seq<u64>, b: Seq<u64>) -> bool {
    lex_le_from(a, b, 0)
}

/// The sequences hold the same words below `c`, and both reach there.
pub open spec fn agree_below(a: Seq<u64>, b: Seq<u64>, c: int) -> bool {
    &&& c <= a.len()
    &&& c <= b.len()
    &&& forall|i: int| 0 <= i < c ==> #[trigger] a[i] == b[i]
}

proof fn lemma_lex_total(a: Seq<u64>, b: Seq<u64>, i: int)
    requires
        0 <= i,
    ensures
        lex_le_from(a, b, i) || lex_le_from(b, a, i),
        i <= a.len() && i <= b.len() && lex_le_from(a, b, i) && lex_le_from(b, a, i) ==> a.skip(i) == b.skip(i),
    decreases a.len() - i,
{
    if i < a.len() && i < b.len() && a[i] == b[i] {
        lemma_lex_total(a, b, i + 1);
        if lex_le_from(a, b, i) && lex_le_from(b, a, i) {
            assert(a.skip(i) =~= seq![a[i]] + a.skip(i + 1));
            assert(b.skip(i) =~= seq![b[i]] + b.skip(i + 1));
        }
    } else if i == a.len() && i == b.len() {
        assert(a.skip(i) =~= b.skip(i));
    }
}

proof fn lemma_lex_trans(a: Seq<u64>, b: Seq<u64>, c: Seq<u64>, i: int)
    requires
        0 <= i,
        lex_le_from(a, b, i),
        lex_le_from(b, c, i),
    ensures
        lex_le_from(a, c, i),
    decreases a.len() - i,
{
    if i < a.len() && i < b.len() && i < c.len() && a[i] == b[i] && b[i] == c[i] {
        lemma_lex_trans(a, b, c, i + 1);
    }
}

/// Only the words from the first difference on decide.
pub proof fn lemma_lex_agree(a: Seq<u64>, b: Seq<u64>, c: int)
    requires
        0 <= c,
        agree_below(a, b, c),
    ensures
        lex_le(a, b) == lex_le_from(a, b, c),
        lex_le(b, a) == lex_le_from(b, a, c),
    decreases c,
{
    if c > 0 {
        lemma_lex_agree(a, b, c - 1);
        assert(a[c - 1] == b[c - 1]);
    }
}

/// An element the algorithm sorts: a small plain value with a key that is a
/// sequence of chunks, each an unsigned word. A fixed key has one chunk.
/// Elements are ordered by the lexicographic order of their chunks.
pub trait Elem: Copy {
    /// The radix key type: `u32` or `u64`.
    type Key: RadixKey;

    /// The chunks of the key.
    spec fn chunks(&self) -> Seq<u64>;

    /// A key has a chunk, and every chunk fits the key type.
    proof fn chunks_fit(&self)
        ensures
            0 < self.chunks().len() < 0x10_0000_0000,
            Self::Key::BITS == 32 || Self::Key::BITS == 64,
            Self::Key::BITS == 32 ==> forall|c: int| 0 <= c < self.chunks().len() ==> #[trigger] self.chunks()[c] <= 0xFFFF_FFFF,
    ;

    /// Keys that agree up to a chunk end there together or not at all.
    proof fn chunks_end_together(a: Self, b: Self, c: int)
        requires
            0 <= c,
            agree_below(a.chunks(), b.chunks(), c + 1),
        ensures
            a.chunks().len() == c + 1 <==> b.chunks().len() == c + 1,
    ;

    /// The key has several chunks (strings).
    spec fn has_chunks() -> bool;

    /// The key has several chunks (strings).
    fn chunked() -> (r: bool)
        ensures
            r == Self::has_chunks(),
            !r ==> forall|x: Self| (#[trigger] x.chunks()).len() == 1,
    ;

    /// Strict order.
    fn less(a: Self, b: Self) -> (r: bool)
        ensures
            r == !lex_le(b.chunks(), a.chunks()),
    ;

    /// Three-way order.
    fn compare(a: Self, b: Self) -> (r: i32)
        ensures
            r < 0 <==> !lex_le(b.chunks(), a.chunks()),
            r > 0 <==> !lex_le(a.chunks(), b.chunks()),
    ;

    /// Three-way order from chunk `chunk` on; both agree on earlier chunks.
    fn compare_from(a: Self, b: Self, chunk: u64) -> (r: i32)
        requires
            agree_below(a.chunks(), b.chunks(), chunk as int),
        ensures
            r < 0 <==> !lex_le(b.chunks(), a.chunks()),
            r > 0 <==> !lex_le(a.chunks(), b.chunks()),
    ;

    /// Order-preserving unsigned key of chunk `chunk`.
    fn radix_key(a: Self, chunk: u64) -> (r: Self::Key)
        requires
            chunk < a.chunks().len(),
        ensures
            r.word() == a.chunks()[chunk as int],
    ;

    /// No chunk after this one.
    fn chunk_ends(a: Self, chunk: u64) -> (r: bool)
        requires
            chunk < a.chunks().len(),
        ensures
            r == (chunk + 1 == a.chunks().len()),
    ;

    /// The bytes outside the element that its key of chunk `chunk` is loaded
    /// from.
    spec fn key_load(&self, chunk: int) -> int;

    /// The bytes outside the elements that a comparison from chunk `chunk` on
    /// looks at.
    spec fn compare_load(&self, other: &Self, chunk: int) -> int;

    /// The bytes outside the element that its key of chunk `chunk` is loaded
    /// from.
    fn key_bytes(a: Self, chunk: u64) -> (r: u64)
        ensures
            r == a.key_load(chunk as int),
    ;

    /// The bytes outside the elements that a comparison from chunk `chunk` on
    /// looks at.
    fn compare_bytes(a: Self, b: Self, chunk: u64) -> (r: u64)
        ensures
            r == a.compare_load(&b, chunk as int),
    ;

    /// Where the bytes outside the element lie that its key of chunk `chunk` is
    /// loaded from; zero where nothing is loaded. The machine chooses the place.
    fn key_place(a: Self, chunk: u64) -> (r: usize) {
        0
    }
}

/// The order of elements.
pub open spec fn elem_le<T: Elem>() -> spec_fn(T, T) -> bool {
    |x: T, y: T| lex_le(x.chunks(), y.chunks())
}

/// The order of elements is a total preorder.
pub proof fn lemma_elem_le_total<T: Elem>()
    ensures
        total_preorder(elem_le::<T>()),
{
    let le = elem_le::<T>();
    assert forall|x: T, y: T| #[trigger] le(x, y) || le(y, x) by {
        lemma_lex_total(x.chunks(), y.chunks(), 0);
    }
    assert forall|x: T, y: T, z: T| #[trigger] le(x, y) && #[trigger] le(y, z) implies le(x, z) by {
        lemma_lex_trans(x.chunks(), y.chunks(), z.chunks(), 0);
    }
}

/// Tied elements have the same chunks.
pub proof fn lemma_elem_tied<T: Elem>(x: T, y: T)
    ensures
        tied(elem_le::<T>(), x, y) <==> x.chunks() == y.chunks(),
{
    lemma_lex_total(x.chunks(), y.chunks(), 0);
    assert(x.chunks().skip(0) =~= x.chunks());
    assert(y.chunks().skip(0) =~= y.chunks());
}

/// A bare key with a number.
#[derive(Clone, Copy, Debug, PartialEq, Eq, Structural)]
pub struct Keyed {
    /// The key.
    pub key: u64,
    /// The number.
    pub id: u32,
}

/// Bare keys are ordered by the key.
pub proof fn lemma_keyed_le(a: Keyed, b: Keyed)
    ensures
        lex_le(a.chunks(), b.chunks()) == (a.key <= b.key),
{
    reveal_with_fuel(lex_le_from, 2);
}

impl Elem for Keyed {
    type Key = u64;

    open spec fn chunks(&self) -> Seq<u64> {
        seq![self.key]
    }

    proof fn chunks_fit(&self) {
        self.key.word_fits();
    }

    proof fn chunks_end_together(a: Self, b: Self, c: int) {
    }

    open spec fn has_chunks() -> bool {
        false
    }

    fn chunked() -> (r: bool) {
        false
    }

    fn less(a: Self, b: Self) -> (r: bool) {
        proof {
            lemma_keyed_le(b, a);
        }
        a.key < b.key
    }

    fn compare(a: Self, b: Self) -> (r: i32) {
        proof {
            lemma_keyed_le(a, b);
            lemma_keyed_le(b, a);
        }
        if a.key < b.key {
            -1
        } else if a.key > b.key {
            1
        } else {
            0
        }
    }

    fn compare_from(a: Self, b: Self, chunk: u64) -> (r: i32) {
        Self::compare(a, b)
    }

    fn radix_key(a: Self, chunk: u64) -> (r: Self::Key) {
        a.key
    }

    fn chunk_ends(a: Self, chunk: u64) -> (r: bool) {
        true
    }

    open spec fn key_load(&self, chunk: int) -> int {
        0
    }

    open spec fn compare_load(&self, other: &Self, chunk: int) -> int {
        0
    }

    fn key_bytes(a: Self, chunk: u64) -> (r: u64) {
        0
    }

    fn compare_bytes(a: Self, b: Self, chunk: u64) -> (r: u64) {
        0
    }
}

// ---- telemetry -------------------------------------------------------------------------------

/// A counter of the algorithm's telemetry.
#[derive(Clone, Copy, PartialEq, Eq, Debug, Structural)]
pub enum Stat {
    /// The displaced-element route started and gave up.
    Giveups,
    /// Median splits.
    Splits,
    /// Splits whose first direction overflowed.
    SplitRetries,
    /// Partition sorts for two to four distinct keys.
    PartSorts,
    /// Dictionary radix attempts.
    DictTries,
    /// Dictionary radix successes.
    DictHits,
    /// Speculative plans that failed verification.
    PlanRetries,
    /// Scatter passes run.
    RadixPasses,
    /// Planned passes whose digit did not vary.
    PassesSkipped,
}

/// Something that a sort tells its hooks.
pub enum Note {
    /// An element was read.
    Read,
    /// An element was written.
    Write,
    /// Entries of a table were read and written.
    Table {
        /// Entries read.
        reads: usize,
        /// Entries written.
        writes: usize,
        /// The bytes of an entry.
        bytes: usize,
    },
    /// So many bytes of a key were loaded.
    Key(u64),
    /// Two elements were compared, with this answer.
    Compare(bool),
    /// So much was added to a telemetry counter.
    Count(Stat, u64),
    /// A route was taken.
    Route(u8),
    /// A recursion began.
    Enter,
    /// A recursion ended.
    Leave,
}

/// Where the elements of a slice lie: what `slice::as_ptr` answers. The machine
/// chooses the place, so nothing is claimed of it.
#[verifier::external_body]
pub(crate) fn place_of<T>(s: &[T]) -> (r: usize)
{
    s.as_ptr() as usize
}

/// Instrumentation. Nothing that a sort returns depends on it. An access is told
/// with the slice and the position in it, so that the hooks can tell one place
/// from another.
pub trait Hooks: Sized {
    /// What is on record, but for the places.
    type Tally;

    /// Whether anything is recorded.
    spec fn records() -> bool;

    /// What is on record, but for the places.
    spec fn tally(self) -> Self::Tally;

    /// The record once `note` was added to it.
    spec fn after(t: Self::Tally, note: Note) -> Self::Tally;

    /// Where nothing is recorded, there is one record.
    proof fn one_record(a: Self::Tally, b: Self::Tally)
        requires
            !Self::records(),
        ensures
            a == b,
    ;

    /// How many element reads are on record.
    spec fn reads(self) -> int;

    /// How many comparisons are on record.
    spec fn compares(self) -> int;

    /// How many recursions are under way, as far as a 32-bit count tells.
    spec fn depth(self) -> nat;

    /// The most recursions that were under way at once.
    spec fn deepest(self) -> nat;

    /// The first route on record; 0 while there is none.
    spec fn route(self) -> int;

    /// How many arrays are or were watched.
    spec fn buffers(self) -> int;

    /// Whether anything is recorded.
    fn counted() -> (r: bool)
        ensures
            r == Self::records(),
    ;

    /// The element `i` was read.
    fn on_read<U>(&mut self, s: &[U], i: usize)
        ensures
            final(self).tally() == Self::after(old(self).tally(), Note::Read),
            Self::records() ==> gained(old(self).reads(), final(self).reads(), 1),
            final(self).reads() >= old(self).reads() && final(self).compares() >= old(self).compares(),
            final(self).depth() == old(self).depth() && final(self).deepest() == old(self).deepest() && final(self).route() == old(self).route() && final(self).buffers() == old(self).buffers(),
    ;

    /// The element `i` was written.
    fn on_write<U>(&mut self, s: &[U], i: usize)
        ensures
            final(self).tally() == Self::after(old(self).tally(), Note::Write),
            final(self).reads() >= old(self).reads() && final(self).compares() >= old(self).compares(),
            final(self).depth() == old(self).depth() && final(self).deepest() == old(self).deepest() && final(self).route() == old(self).route() && final(self).buffers() == old(self).buffers(),
    ;

    /// The entry `i` of a table, of `bytes` bytes, was read, written, or both.
    fn on_table<U>(&mut self, s: &[U], i: usize, bytes: usize, read: bool, write: bool)
        ensures
            final(self).tally() == Self::after(old(self).tally(), table_note(1, bytes, read, write)),
            final(self).reads() >= old(self).reads() && final(self).compares() >= old(self).compares(),
            final(self).depth() == old(self).depth() && final(self).deepest() == old(self).deepest() && final(self).route() == old(self).route() && final(self).buffers() == old(self).buffers(),
    ;

    /// The first `entries` entries of a table, of `bytes` bytes each, were swept.
    fn on_table_sweep<U>(&mut self, s: &[U], entries: usize, bytes: usize, read: bool, write: bool)
        ensures
            final(self).tally() == Self::after(old(self).tally(), table_note(entries, bytes, read, write)),
            final(self).reads() >= old(self).reads() && final(self).compares() >= old(self).compares(),
            final(self).depth() == old(self).depth() && final(self).deepest() == old(self).deepest() && final(self).route() == old(self).route() && final(self).buffers() == old(self).buffers(),
    ;

    /// `bytes` bytes of a key were loaded, from `at` on.
    fn on_key(&mut self, at: usize, bytes: u64)
        ensures
            final(self).tally() == Self::after(old(self).tally(), Note::Key(bytes)),
            final(self).reads() >= old(self).reads() && final(self).compares() >= old(self).compares(),
            final(self).depth() == old(self).depth() && final(self).deepest() == old(self).deepest() && final(self).route() == old(self).route() && final(self).buffers() == old(self).buffers(),
    ;

    /// `bytes` bytes of two keys were loaded, half of them from `a` on and half
    /// from `b` on.
    fn on_key_pair(&mut self, a: usize, b: usize, bytes: u64)
        ensures
            final(self).tally() == Self::after(old(self).tally(), Note::Key(bytes)),
            final(self).reads() >= old(self).reads() && final(self).compares() >= old(self).compares(),
            final(self).depth() == old(self).depth() && final(self).deepest() == old(self).deepest() && final(self).route() == old(self).route() && final(self).buffers() == old(self).buffers(),
    ;

    /// Two elements were compared; `less` is the answer.
    fn on_compare(&mut self, less: bool)
        ensures
            final(self).tally() == Self::after(old(self).tally(), Note::Compare(less)),
            Self::records() ==> gained(old(self).compares(), final(self).compares(), 1),
            final(self).reads() >= old(self).reads() && final(self).compares() >= old(self).compares(),
            final(self).depth() == old(self).depth() && final(self).deepest() == old(self).deepest() && final(self).route() == old(self).route() && final(self).buffers() == old(self).buffers(),
    ;

    /// An array with room for `n` elements was set up.
    fn on_alloc<U>(&mut self, s: &[U], n: usize)
        ensures
            final(self).tally() == old(self).tally(),
            final(self).reads() == old(self).reads() && final(self).compares() == old(self).compares(),
            final(self).depth() == old(self).depth() && final(self).deepest() == old(self).deepest() && final(self).route() == old(self).route(),
            final(self).buffers() >= old(self).buffers(),
    ;

    /// An array is about to be given back.
    fn on_free<U>(&mut self, s: &[U])
        ensures
            final(self).tally() == old(self).tally(),
            final(self).reads() == old(self).reads() && final(self).compares() == old(self).compares(),
            final(self).depth() == old(self).depth() && final(self).deepest() == old(self).deepest() && final(self).route() == old(self).route() && final(self).buffers() == old(self).buffers(),
    ;

    /// Adds `n` to a telemetry counter.
    fn stat(&mut self, s: Stat, n: u64)
        ensures
            final(self).tally() == Self::after(old(self).tally(), Note::Count(s, n)),
            final(self).reads() >= old(self).reads() && final(self).compares() >= old(self).compares(),
            final(self).depth() == old(self).depth() && final(self).deepest() == old(self).deepest() && final(self).route() == old(self).route() && final(self).buffers() == old(self).buffers(),
    ;

    /// A route was taken for a range: 1 sorted, 2 reverse, 3 runs, 4
    /// displaced, 5 radix.
    fn note_route(&mut self, r: u8)
        ensures
            final(self).tally() == Self::after(old(self).tally(), Note::Route(r)),
            final(self).reads() >= old(self).reads() && final(self).compares() >= old(self).compares(),
            final(self).depth() == old(self).depth() && final(self).deepest() == old(self).deepest() && final(self).buffers() == old(self).buffers(),
            Self::records() ==> final(self).route() == if old(self).route() == 0 {
                r as int
            } else {
                old(self).route()
            },
            !Self::records() ==> final(self).route() == old(self).route(),
    ;

    /// Recursion depth.
    fn enter_depth(&mut self)
        ensures
            final(self).tally() == Self::after(old(self).tally(), Note::Enter),
            final(self).reads() >= old(self).reads() && final(self).compares() >= old(self).compares(),
            final(self).route() == old(self).route() && final(self).buffers() == old(self).buffers(),
            Self::records() ==> final(self).depth() == one_deeper(old(self).depth()) && final(self).deepest() == if final(self).depth() > old(self).deepest() {
                final(self).depth()
            } else {
                old(self).deepest()
            },
            !Self::records() ==> final(self).depth() == old(self).depth() && final(self).deepest() == old(self).deepest(),
    ;

    /// Recursion depth.
    fn leave_depth(&mut self)
        ensures
            final(self).tally() == Self::after(old(self).tally(), Note::Leave),
            final(self).reads() >= old(self).reads() && final(self).compares() >= old(self).compares(),
            final(self).route() == old(self).route() && final(self).deepest() == old(self).deepest() && final(self).buffers() == old(self).buffers(),
            Self::records() ==> final(self).depth() == one_up(old(self).depth()),
            !Self::records() ==> final(self).depth() == old(self).depth(),
    ;
}

/// `entries` entries of a table, of `bytes` bytes each, were read, written, or
/// both.
pub open spec fn table_note(entries: usize, bytes: usize, read: bool, write: bool) -> Note {
    Note::Table {
        reads: if read {
            entries
        } else {
            0
        },
        writes: if write {
            entries
        } else {
            0
        },
        bytes,
    }
}

/// A recursion begins in a 32-bit count of them.
pub open spec fn one_deeper(d: nat) -> nat {
    if d == u32::MAX {
        0
    } else {
        d + 1
    }
}

/// A recursion ends in a 32-bit count of them.
pub open spec fn one_up(d: nat) -> nat {
    if d == 0 {
        u32::MAX as nat
    } else {
        (d - 1) as nat
    }
}

/// What was on record stays there; recursions that began ended.
pub open spec fn keeps_counts<H: Hooks>(before: H, now: H) -> bool {
    &&& now.reads() >= before.reads() && now.compares() >= before.compares()
    &&& now.depth() == before.depth()
    &&& now.buffers() >= before.buffers()
    &&& before.route() != 0 ==> now.route() == before.route()
}

/// What was on record stays there; no recursion began and no route was taken.
pub open spec fn keeps_record<H: Hooks>(before: H, now: H) -> bool {
    &&& keeps_counts(before, now)
    &&& now.deepest() == before.deepest()
    &&& now.route() == before.route()
}

/// At most `k` recursions more were under way at once than before.
pub open spec fn goes_down<H: Hooks>(before: H, now: H, k: int) -> bool {
    H::records() && before.depth() + k <= u32::MAX ==> now.deepest() <= before.deepest() || now.deepest() <= before.depth() + k
}

/// Where nothing is recorded, there is one record.
pub proof fn lemma_record<H: Hooks>(a: H::Tally, b: H::Tally)
    ensures
        !H::records() ==> a == b,
{
    if !H::records() {
        H::one_record(a, b);
    }
}

/// A count went up by `k` at least, or stands at the top of its range.
pub open spec fn gained(before: int, now: int, k: int) -> bool {
    now >= before + k || now >= u64::MAX
}

/// Records the load of a key.
pub(crate) fn note_key<T: Elem, H: Hooks>(x: T, chunk: u64, hooks: &mut H)
    ensures
        keeps_record(*old(hooks), *final(hooks)),
        final(hooks).tally() == H::after(old(hooks).tally(), Note::Key(x.key_load(chunk as int) as u64)),
{
    if H::counted() {
        hooks.on_key(T::key_place(x, chunk), T::key_bytes(x, chunk));
    }
    proof {
        lemma_record::<H>(hooks.tally(), H::after(old(hooks).tally(), Note::Key(x.key_load(chunk as int) as u64)));
    }
}

/// Records a comparison and the bytes that it looked at.
pub(crate) fn note_compare<T: Elem, H: Hooks>(a: T, b: T, chunk: u64, less: bool, hooks: &mut H)
    ensures
        keeps_record(*old(hooks), *final(hooks)),
        H::records() ==> gained(old(hooks).compares(), final(hooks).compares(), 1),
        final(hooks).tally() == H::after(H::after(old(hooks).tally(), Note::Key(a.compare_load(&b, chunk as int) as u64)), Note::Compare(less)),
{
    if H::counted() {
        hooks.on_key_pair(T::key_place(a, chunk), T::key_place(b, chunk), T::compare_bytes(a, b, chunk));
        hooks.on_compare(less);
    }
    proof {
        lemma_record::<H>(hooks.tally(), H::after(H::after(old(hooks).tally(), Note::Key(a.compare_load(&b, chunk as int) as u64)), Note::Compare(less)));
    }
}

/// The record once the notes were added to it in turn.
pub open spec fn told<H: Hooks>(t: H::Tally, notes: Seq<Note>) -> H::Tally
    decreases notes.len(),
{
    if notes.len() == 0 {
        t
    } else {
        H::after(told::<H>(t, notes.drop_last()), notes.last())
    }
}

pub proof fn lemma_told_one<H: Hooks>(t: H::Tally, x: Note)
    ensures
        told::<H>(t, seq![x]) == H::after(t, x),
{
    reveal_with_fuel(told, 2);
    assert(seq![x].drop_last() =~= Seq::empty());
}

pub proof fn lemma_told_two<H: Hooks>(t: H::Tally, x: Note, y: Note)
    ensures
        told::<H>(t, seq![x, y]) == H::after(H::after(t, x), y),
{
    lemma_told_one::<H>(t, x);
    assert(seq![x, y].drop_last() =~= seq![x]);
}

pub proof fn lemma_told_add<H: Hooks>(t: H::Tally, x: Seq<Note>, y: Seq<Note>)
    ensures
        told::<H>(t, x + y) == told::<H>(told::<H>(t, x), y),
    decreases y.len(),
{
    if y.len() == 0 {
        assert(x + y =~= x);
    } else {
        assert((x + y).drop_last() =~= x + y.drop_last());
        lemma_told_add::<H>(t, x, y.drop_last());
    }
}

/// The record once `note` was added to it `k` times.
pub open spec fn after_times<H: Hooks>(t: H::Tally, note: Note, k: int) -> H::Tally
    decreases k,
{
    if k <= 0 {
        t
    } else {
        H::after(after_times::<H>(t, note, k - 1), note)
    }
}

/// The record once `k` elements were read, each of them written after that.
pub open spec fn after_copies<H: Hooks>(t: H::Tally, k: int) -> H::Tally
    decreases k,
{
    if k <= 0 {
        t
    } else {
        H::after(H::after(after_copies::<H>(t, k - 1), Note::Read), Note::Write)
    }
}

/// The record once `k` pairs of elements changed places.
pub open spec fn after_swaps<H: Hooks>(t: H::Tally, k: int) -> H::Tally
    decreases k,
{
    if k <= 0 {
        t
    } else {
        H::after(H::after(H::after(H::after(after_swaps::<H>(t, k - 1), Note::Read), Note::Read), Note::Write), Note::Write)
    }
}

/// Records that the elements of `[lo, hi)` were written in turn.
pub(crate) fn note_writes<U, H: Hooks>(s: &[U], lo: usize, hi: usize, hooks: &mut H)
    requires
        lo <= hi,
    ensures
        keeps_record(*old(hooks), *final(hooks)),
        final(hooks).tally() == after_times::<H>(old(hooks).tally(), Note::Write, hi - lo),
{
    if H::counted() {
        let mut i: usize = lo;
        while i < hi
            invariant
                lo <= i <= hi,
                keeps_record(*old(hooks), *hooks),
                hooks.tally() == after_times::<H>(old(hooks).tally(), Note::Write, i - lo),
            decreases hi - i,
        {
            hooks.on_write(s, i);
            i += 1;
        }
    }
    proof {
        lemma_record::<H>(hooks.tally(), after_times::<H>(old(hooks).tally(), Note::Write, hi - lo));
    }
}

/// Records that `n` elements from `from` on were read in turn, each written to
/// the slice `dst` from `to` on.
pub(crate) fn note_copies<U, H: Hooks>(src: &[U], from: usize, dst: &[U], to: usize, n: usize, hooks: &mut H)
    requires
        from + n <= usize::MAX,
        to + n <= usize::MAX,
    ensures
        keeps_record(*old(hooks), *final(hooks)),
        H::records() ==> gained(old(hooks).reads(), final(hooks).reads(), n as int),
        final(hooks).tally() == after_copies::<H>(old(hooks).tally(), n as int),
{
    if H::counted() {
        let mut i: usize = 0;
        while i < n
            invariant
                i <= n,
                from + n <= usize::MAX,
                to + n <= usize::MAX,
                keeps_record(*old(hooks), *hooks),
                H::records(),
                gained(old(hooks).reads(), hooks.reads(), i as int),
                hooks.tally() == after_copies::<H>(old(hooks).tally(), i as int),
            decreases n - i,
        {
            hooks.on_read(src, from + i);
            hooks.on_write(dst, to + i);
            i += 1;
        }
    }
    proof {
        lemma_record::<H>(hooks.tally(), after_copies::<H>(old(hooks).tally(), n as int));
    }
}

/// Records that the elements of `[lo, hi)` were turned round: the ends swapped,
/// then the elements next to them, and so on.
pub(crate) fn note_turned<U, H: Hooks>(s: &[U], lo: usize, hi: usize, hooks: &mut H)
    requires
        lo <= hi,
    ensures
        keeps_record(*old(hooks), *final(hooks)),
        final(hooks).tally() == after_swaps::<H>(old(hooks).tally(), (hi - lo) / 2),
{
    if H::counted() {
        let mut i: usize = lo;
        let mut j: usize = hi;
        while i < j && j - i > 1
            invariant
                keeps_record(*old(hooks), *hooks),
                lo <= i <= j <= hi,
                i - lo == hi - j,
                hooks.tally() == after_swaps::<H>(old(hooks).tally(), i - lo),
            decreases j - i,
        {
            j -= 1;
            hooks.on_read(s, i);
            hooks.on_read(s, j);
            hooks.on_write(s, i);
            hooks.on_write(s, j);
            i += 1;
        }
    }
    proof {
        lemma_record::<H>(hooks.tally(), after_swaps::<H>(old(hooks).tally(), (hi - lo) / 2));
    }
}

/// The hooks of the library: nothing is recorded.
#[derive(Clone, Copy, Debug)]
pub struct NoHooks;

impl Hooks for NoHooks {
    type Tally = ();

    open spec fn records() -> bool {
        false
    }

    open spec fn tally(self) -> () {
        ()
    }

    open spec fn after(t: (), note: Note) -> () {
        ()
    }

    proof fn one_record(a: (), b: ()) {
    }

    open spec fn reads(self) -> int {
        0
    }

    open spec fn compares(self) -> int {
        0
    }

    open spec fn depth(self) -> nat {
        0
    }

    open spec fn deepest(self) -> nat {
        0
    }

    open spec fn route(self) -> int {
        0
    }

    open spec fn buffers(self) -> int {
        0
    }

    fn counted() -> (r: bool) {
        false
    }

    fn on_read<U>(&mut self, s: &[U], i: usize) {
    }

    fn on_write<U>(&mut self, s: &[U], i: usize) {
    }

    fn on_table<U>(&mut self, s: &[U], i: usize, bytes: usize, read: bool, write: bool) {
    }

    fn on_table_sweep<U>(&mut self, s: &[U], entries: usize, bytes: usize, read: bool, write: bool) {
    }

    fn on_key(&mut self, at: usize, bytes: u64) {
    }

    fn on_key_pair(&mut self, a: usize, b: usize, bytes: u64) {
    }

    fn on_compare(&mut self, less: bool) {
    }

    fn on_alloc<U>(&mut self, s: &[U], n: usize) {
    }

    fn on_free<U>(&mut self, s: &[U]) {
    }

    fn stat(&mut self, s: Stat, n: u64) {
    }

    fn note_route(&mut self, r: u8) {
    }

    fn enter_depth(&mut self) {
    }

    fn leave_depth(&mut self) {
    }
}

// ---- memory ----------------------------------------------------------------------------------

/// The memory a sort asked for is not there.
#[derive(Clone, Copy, PartialEq, Eq, Debug, Structural)]
pub struct AllocError;

/// The alignment of the memory: elements that want more take the paths that set
/// up no array.
pub const MAX_ALIGN: usize = 16;

/// The memory a sort works in. A sort asks before every array that it sets
/// up, and does without the array when the answer is no.
pub trait Alloc {
    /// How often memory was refused so far.
    spec fn refusals(&self) -> nat;

    /// The bytes of the arrays that are set up and not given back.
    spec fn held(&self) -> nat;

    /// The bytes of the arrays that were asked for so far, in turn.
    spec fn asked(&self) -> Seq<nat>;

    /// The most bytes that were held at once.
    spec fn most_held(&self) -> nat;

    /// Whether an array of `bytes` bytes may be set up.
    fn allocate(&mut self, bytes: usize) -> (r: bool)
        ensures
            final(self).asked() == old(self).asked().push(bytes as nat),
            r ==> final(self).refusals() == old(self).refusals() && final(self).held() == old(self).held() + bytes,
            r ==> final(self).most_held() == larger(old(self).most_held(), final(self).held()),
            !r ==> final(self).refusals() == old(self).refusals() + 1 && final(self).held() == old(self).held(),
    ;

    /// The machine had no memory for the array of `bytes` bytes that was asked
    /// for last.
    fn refuse(&mut self, bytes: usize)
        requires
            old(self).asked().len() > 0,
            old(self).asked().last() == bytes,
        ensures
            final(self).refusals() == old(self).refusals() + 1,
            final(self).held() == old(self).held(),
            final(self).asked() == old(self).asked(),
    ;

    /// An array of `n` elements of `size` bytes, aligned to `align` bytes, cannot
    /// be asked for: its bytes are too many to count, or blocks are not aligned
    /// so far.
    fn oversize(&mut self, n: usize, size: usize, align: usize)
        requires
            n * size > usize::MAX || align > MAX_ALIGN,
        ensures
            final(self).refusals() == old(self).refusals() + 1,
            final(self).held() == old(self).held(),
            final(self).asked() == old(self).asked(),
    ;

    /// An array of `bytes` bytes was given back.
    fn deallocate(&mut self, bytes: usize)
        requires
            bytes <= old(self).held(),
        ensures
            final(self).refusals() == old(self).refusals(),
            final(self).held() == old(self).held() - bytes,
            final(self).asked() == old(self).asked(),
            final(self).most_held() == old(self).most_held(),
    ;
}

/// The larger of two counts.
pub open spec fn larger(a: nat, b: nat) -> nat {
    if a < b {
        b
    } else {
        a
    }
}

/// The books of a memory: what was asked for, what is held, and the most that was
/// held at once.
pub struct Books {
    /// The bytes of the arrays that were asked for, in turn.
    pub asked: Seq<nat>,
    /// The bytes that are held.
    pub held: nat,
    /// The most bytes that were held at once.
    pub most: nat,
}

/// The books of a memory.
pub open spec fn books<M: Alloc>(mem: M) -> Books {
    Books { asked: mem.asked(), held: mem.held(), most: mem.most_held() }
}

/// The books once an array of `n` elements was set up.
pub open spec fn taken<T>(b: Books, n: nat) -> Books {
    let held = b.held + space::<T>(n);
    Books { asked: asks_for::<T>(b.asked, n), held, most: larger(b.most, held) }
}

/// The books once an array of `n` elements was given back.
pub open spec fn given<T>(b: Books, n: nat) -> Books {
    Books { asked: b.asked, held: (b.held - space::<T>(n)) as nat, most: b.most }
}

/// The bytes of an array of `n` elements; none where they are too many to count.
pub closed spec fn space<T>(n: nat) -> nat {
    if n * vstd::layout::size_of::<T>() <= usize::MAX {
        n * vstd::layout::size_of::<T>()
    } else {
        0
    }
}

/// No array of `n` elements can be asked for.
pub open spec fn too_large<T>(n: nat) -> bool {
    n * vstd::layout::size_of::<T>() > usize::MAX || vstd::layout::align_of::<T>() > MAX_ALIGN
}

/// What was asked for once an array of `n` elements was.
pub open spec fn asks_for<T>(asked: Seq<nat>, n: nat) -> Seq<nat> {
    if too_large::<T>(n) {
        asked
    } else {
        asked.push(n * vstd::layout::size_of::<T>())
    }
}

/// What was asked for stays on record.
pub open spec fn asks_more(before: Seq<nat>, now: Seq<nat>) -> bool {
    &&& before.len() <= now.len()
    &&& forall|i: int| 0 <= i < before.len() ==> #[trigger] now[i] == before[i]
}

/// No elements, no bytes.
pub proof fn lemma_no_space<T>()
    ensures
        space::<T>(0) == 0,
{
    assert(0 * vstd::layout::size_of::<T>() == 0) by (nonlinear_arith);
}

/// An array takes the bytes of its elements, where they can be counted.
pub proof fn arrays_take_their_bytes<T>(n: nat)
    ensures
        n * vstd::layout::size_of::<T>() <= usize::MAX ==> space::<T>(n) == n * vstd::layout::size_of::<T>(),
        n * vstd::layout::size_of::<T>() > usize::MAX ==> space::<T>(n) == 0,
{
}

/// An empty array with room for `n` elements, or an error where the memory is
/// not there.
pub fn alloc_array<T, M: Alloc>(mem: &mut M, n: usize) -> (r: Result<Vec<T>, AllocError>)
    ensures
        r matches Ok(v) ==> v@ == Seq::<T>::empty() && final(mem).refusals() == old(mem).refusals(),
        r is Ok ==> final(mem).held() == old(mem).held() + space::<T>(n as nat),
        r is Ok ==> books(*final(mem)) == taken::<T>(books(*old(mem)), n as nat),
        r is Err ==> final(mem).refusals() == old(mem).refusals() + 1 && final(mem).held() == old(mem).held(),
        too_large::<T>(n as nat) ==> r is Err,
        final(mem).asked() == asks_for::<T>(old(mem).asked(), n as nat),
{
    let size: usize = core::mem::size_of::<T>();
    let align: usize = core::mem::align_of::<T>();
    if align > MAX_ALIGN {
        mem.oversize(n, size, align);
        return Err(AllocError);
    }
    match n.checked_mul(size) {
        None => {
            mem.oversize(n, size, align);
            Err(AllocError)
        },
        Some(bytes) => {
            if !mem.allocate(bytes) {
                return Err(AllocError);
            }
            let mut v: Vec<T> = Vec::new();
            match v.try_reserve(n) {
                Ok(_) => Ok(v),
                Err(_) => {
                    mem.deallocate(bytes);
                    mem.refuse(bytes);
                    Err(AllocError)
                },
            }
        },
    }
}

/// Gives an array with room for `n` elements back.
pub fn free_array<T, M: Alloc>(mem: &mut M, v: Vec<T>, n: usize)
    requires
        space::<T>(n as nat) <= old(mem).held(),
    ensures
        final(mem).refusals() == old(mem).refusals(),
        final(mem).held() == old(mem).held() - space::<T>(n as nat),
        books(*final(mem)) == given::<T>(books(*old(mem)), n as nat),
        final(mem).asked() == old(mem).asked(),
{
    match n.checked_mul(core::mem::size_of::<T>()) {
        None => {},
        Some(bytes) => {
            mem.deallocate(bytes);
        },
    }
}

/// `n` copies of `x`, or an error where the memory is not there.
pub fn alloc_filled<T: Copy, M: Alloc>(mem: &mut M, n: usize, x: T) -> (r: Result<Vec<T>, AllocError>)
    ensures
        r matches Ok(v) ==> v@ == Seq::new(n as nat, |i: int| x) && final(mem).refusals() == old(mem).refusals(),
        r is Ok ==> final(mem).held() == old(mem).held() + space::<T>(n as nat),
        r is Ok ==> books(*final(mem)) == taken::<T>(books(*old(mem)), n as nat),
        r is Err ==> final(mem).refusals() == old(mem).refusals() + 1 && final(mem).held() == old(mem).held(),
        too_large::<T>(n as nat) ==> r is Err,
        final(mem).asked() == asks_for::<T>(old(mem).asked(), n as nat),
{
    let mut v: Vec<T> = match alloc_array(mem, n) {
        Ok(v) => v,
        Err(e) => {
            return Err(e);
        },
    };
    while v.len() < n
        invariant
            v@.len() <= n,
            forall|i: int| 0 <= i < v@.len() ==> v@[i] == x,
        decreases n - v@.len(),
    {
        v.push(x);
    }
    assert(v@ =~= Seq::new(n as nat, |i: int| x));
    Ok(v)
}

/// An empty array with room for `n` elements as [`alloc_array`] sets it up; the
/// hooks are told.
pub fn take_array<T, M: Alloc, H: Hooks>(mem: &mut M, n: usize, hooks: &mut H) -> (r: Result<Vec<T>, AllocError>)
    ensures
        r matches Ok(v) ==> v@ == Seq::<T>::empty() && final(mem).refusals() == old(mem).refusals(),
        r is Ok ==> final(mem).held() == old(mem).held() + space::<T>(n as nat),
        r is Ok ==> books(*final(mem)) == taken::<T>(books(*old(mem)), n as nat),
        r is Err ==> final(mem).refusals() == old(mem).refusals() + 1 && final(mem).held() == old(mem).held(),
        too_large::<T>(n as nat) ==> r is Err,
        final(mem).asked() == asks_for::<T>(old(mem).asked(), n as nat),
        final(hooks).tally() == old(hooks).tally(),
        keeps_record(*old(hooks), *final(hooks)),
{
    let v: Vec<T> = alloc_array(mem, n)?;
    hooks.on_alloc(&v, n);
    Ok(v)
}

/// `n` copies of `x` as [`alloc_filled`] sets them up; the hooks are told.
pub fn take_filled<T: Copy, M: Alloc, H: Hooks>(mem: &mut M, n: usize, x: T, hooks: &mut H) -> (r: Result<Vec<T>, AllocError>)
    ensures
        r matches Ok(v) ==> v@ == Seq::new(n as nat, |i: int| x) && final(mem).refusals() == old(mem).refusals(),
        r is Ok ==> final(mem).held() == old(mem).held() + space::<T>(n as nat),
        r is Ok ==> books(*final(mem)) == taken::<T>(books(*old(mem)), n as nat),
        r is Err ==> final(mem).refusals() == old(mem).refusals() + 1 && final(mem).held() == old(mem).held(),
        too_large::<T>(n as nat) ==> r is Err,
        final(mem).asked() == asks_for::<T>(old(mem).asked(), n as nat),
        final(hooks).tally() == old(hooks).tally(),
        keeps_record(*old(hooks), *final(hooks)),
{
    let v: Vec<T> = alloc_filled(mem, n, x)?;
    hooks.on_alloc(&v, n);
    Ok(v)
}

/// Gives an array with room for `n` elements back as [`free_array`] does; the
/// hooks are told.
pub fn give_array<T, M: Alloc, H: Hooks>(mem: &mut M, v: Vec<T>, n: usize, hooks: &mut H)
    requires
        space::<T>(n as nat) <= old(mem).held(),
    ensures
        final(mem).refusals() == old(mem).refusals(),
        final(mem).held() == old(mem).held() - space::<T>(n as nat),
        books(*final(mem)) == given::<T>(books(*old(mem)), n as nat),
        final(mem).asked() == old(mem).asked(),
        final(hooks).tally() == old(hooks).tally(),
        keeps_record(*old(hooks), *final(hooks)),
{
    hooks.on_free(&v);
    free_array(mem, v, n);
}

// ---- array routines --------------------------------------------------------------------------

/// Stable insertion sort.
pub fn insertion_sort<T: Elem, H: Hooks>(a: &mut [T], hooks: &mut H)
    ensures
        stable_sort_of(elem_le::<T>(), old(a)@, final(a)@),
        keeps_record(*old(hooks), *final(hooks)),
        H::records() ==> final(hooks).tally() == crate::less::insertion_tally::<T, crate::less::Natural, H>(
            &crate::less::Natural,
            elem_le::<T>(),
            old(hooks).tally(),
            old(a)@,
            old(a)@.len() as int,
        ),
        H::records() && old(a)@.len() > 0 ==> gained(old(hooks).reads(), final(hooks).reads(), 2 * (old(a)@.len() - 1)) && gained(old(hooks).compares(), final(hooks).compares(), old(a)@.len() - 1),
{
    assert(crate::less::Less::<T>::follows(&crate::less::Natural, elem_le::<T>()));
    crate::less::insertion_sort_by(a, &crate::less::Natural, hooks);
}

/// Forward copy of `len` elements of `src` from `s` on to `dst` from `d` on.
pub fn copy_forward<T: Copy>(src: &[T], s: usize, dst: &mut [T], d: usize, len: usize)
    requires
        s + len <= src@.len(),
        d + len <= old(dst)@.len(),
    ensures
        final(dst)@ == old(dst)@.take(d as int) + src@.subrange(s as int, s + len) + old(dst)@.skip(d + len),
{
    let ghost o = dst@;
    let sn: usize = src.len();
    let dn: usize = dst.len();
    let mut i: usize = 0;
    while i < len
        invariant
            i <= len,
            sn == src@.len(),
            dn == o.len(),
            s + len <= sn,
            d + len <= dn,
            dst@ == o.take(d as int) + src@.subrange(s as int, s + i) + o.skip(d + i),
        decreases len - i,
    {
        dst[d + i] = src[s + i];
        i += 1;
        assert(dst@ =~= o.take(d as int) + src@.subrange(s as int, s + i) + o.skip(d + i));
    }
}

/// Reverses `a[lo, hi)`.
pub fn reverse_range<T>(a: &mut [T], lo: usize, hi: usize)
    requires
        lo <= hi <= old(a)@.len(),
    ensures
        final(a)@ == old(a)@.take(lo as int) + old(a)@.subrange(lo as int, hi as int).reverse() + old(a)@.skip(hi as int),
{
    let ghost o = a@;
    let mut l: usize = lo;
    let mut h: usize = hi;
    while h - l > 1
        invariant
            lo <= l <= h <= hi <= o.len(),
            l - lo == hi - h,
            a@.len() == o.len(),
            forall|k: int| 0 <= k < lo || hi <= k < o.len() || l <= k < h ==> a@[k] == o[k],
            forall|k: int| lo <= k < l || h <= k < hi ==> a@[k] == o[lo + hi - 1 - k],
        decreases h - l,
    {
        h -= 1;
        let (left, right) = a.split_at_mut(h);
        core::mem::swap(&mut left[l], &mut right[0]);
        l += 1;
    }
    assert(a@ =~= o.take(lo as int) + o.subrange(lo as int, hi as int).reverse() + o.skip(hi as int));
}

/// floor(log2(n)); 0 for n < 2.
pub open spec fn log2_of(n: int) -> int
    decreases n,
{
    if n <= 1 {
        0
    } else {
        1 + log2_of(n / 2)
    }
}

/// Between two powers of two the logarithm is the lower one's.
pub proof fn lemma_log2(n: int, r: nat)
    requires
        pow2(r) <= n < pow2(r + 1),
    ensures
        log2_of(n) == r,
    decreases r,
{
    lemma_pow2_unfold(r + 1);
    if r == 0 {
        vstd::arithmetic::power2::lemma2_to64();
    } else {
        lemma_pow2_unfold(r);
        lemma_pow2_pos((r - 1) as nat);
        lemma_log2(n / 2, (r - 1) as nat);
    }
}

/// The place of the lowest set bit.
pub open spec fn low_bit(k: int) -> int
    decreases k,
{
    if k <= 0 || k % 2 == 1 {
        0
    } else {
        1 + low_bit(k / 2)
    }
}

/// The lowest set bit is that of the largest power of two that divides.
pub proof fn lemma_low_bit(k: int, r: nat)
    requires
        k > 0,
        k % (pow2(r) as int) == 0,
        k / (pow2(r) as int) % 2 == 1,
    ensures
        low_bit(k) == r,
    decreases r,
{
    if r == 0 {
        vstd::arithmetic::power2::lemma2_to64();
    } else {
        lemma_pow2_unfold(r);
        lemma_pow2_pos((r - 1) as nat);
        let h = pow2((r - 1) as nat) as int;
        let q = k / (2 * h);
        vstd::arithmetic::div_mod::lemma_fundamental_div_mod(k, 2 * h);
        assert((2 * h) * q == 2 * (h * q)) by (nonlinear_arith);
        assert(k / 2 == h * q);
        vstd::arithmetic::div_mod::lemma_div_multiples_vanish(q, h);
        vstd::arithmetic::div_mod::lemma_mod_multiples_basic(q, h);
        assert(h * q == q * h) by (nonlinear_arith);
        assert(q > 0) by (nonlinear_arith)
            requires
                2 * (h * q) == k,
                k > 0,
                h > 0,
        ;
        lemma_low_bit(k / 2, (r - 1) as nat);
    }
}

/// floor(log2(n)); 0 for n < 2.
pub fn floor_log2(n: usize) -> (r: usize)
    ensures
        r == log2_of(n as int),
        n == 0 ==> r == 0,
        n > 0 ==> pow2(r as nat) <= n < pow2((r + 1) as nat),
{
    let mut m: usize = n;
    let mut r: usize = 0;
    proof {
        lemma_pow2_32();
        lemma_pow2_unfold(1);
    }
    while m > 1
        invariant
            n == 0 ==> r == 0 && m == 0,
            r + log2_of(m as int) == log2_of(n as int),
            n > 0 ==> m > 0 && m * pow2(r as nat) <= n < (m + 1) * pow2(r as nat),
            m + r <= n,
        decreases m,
    {
        proof {
            lemma_pow2_unfold((r + 1) as nat);
            let p = pow2(r as nat);
            let h = (m / 2) as nat;
            assert(h * (2 * p) <= m * p) by (nonlinear_arith)
                requires
                    2 * h <= m,
            ;
            assert((m + 1) * p <= (h + 1) * (2 * p)) by (nonlinear_arith)
                requires
                    m + 1 <= 2 * h + 2,
            ;
        }
        m = m / 2;
        r += 1;
    }
    proof {
        lemma_pow2_unfold((r + 1) as nat);
        if n > 0 {
            let p = pow2(r as nat);
            assert(m == 1);
            assert(m * p == p) by (nonlinear_arith)
                requires
                    m == 1,
            ;
            assert((m + 1) * p == 2 * p) by (nonlinear_arith)
                requires
                    m == 1,
            ;
        }
    }
    r
}

} // verus!
