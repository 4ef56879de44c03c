//! The sort records.
//!
//! The public sorts never sort the caller's elements directly. They build an
//! array of small records, each holding the radix form of one key and the
//! original index, sort those with the core algorithm, and then permute the
//! elements once. Four record types cover every key shape:
//!
//! - `Rec32`: fixed keys of up to 32 bits in total
//! - `Rec64`: fixed keys of up to 64 bits in total
//! - `StrRec`: a single byte string (chunked)
//! - `CompRec`: anything else: a sequence of fixed and byte-string parts
//!
//! Several fixed keys are packed into one radix value (a `(i32, i32)` is one
//! 64-bit key), so composite keys of integers stay on the fast paths.
use crate::key::{
    key_le, key_le_from, key_order_total, leaf_le, lemma_key_add, part_of, radix_fits, shaped,
    turned, Key, LeafModel, PartSink,
};
use crate::key::number::{f64_from_radix, f64_magnitude};
use crate::key::slots::SLOT_MAX;
use crate::shape::{none_bytes, width_sum, Part};
use crate::view::{lex_le, lex_le_from, Elem, RadixKey};
use vstd::arithmetic::power2::{lemma2_to64, lemma2_to64_rest, lemma_pow2_adds, lemma_pow2_pos, lemma_pow2_strictly_increases, pow2};
use vstd::bits::lemma_u64_shl_is_mul;
use vstd::arithmetic::logarithm::log;
use vstd::prelude::*;

pub mod composite;
pub mod string;

verus! {

// ---- packing -------------------------------------------------------------------------------------

/// The value of a fixed leaf with its direction taken in: a reversed leaf of
/// `bits` bits has the complement.
pub open spec fn directed(l: LeafModel) -> int {
    match l {
        LeafModel::Fixed { bits, desc, radix } => if desc {
            pow2(bits as nat) - 1 - radix
        } else {
            radix as int
        },
        LeafModel::Bytes { desc, text } => 0,
    }
}

/// The width of a leaf.
pub open spec fn leaf_bits(l: LeafModel) -> nat {
    part_of(l).bits as nat
}

/// The leaves as the digits of one number, the first leaf on top.
pub open spec fn packed(s: Seq<LeafModel>) -> int
    decreases s.len(),
{
    if s.len() == 0 {
        0
    } else {
        packed(s.drop_last()) * pow2(leaf_bits(s.last())) + directed(s.last())
    }
}

/// The widths of the leaves in all.
pub open spec fn total_width(s: Seq<LeafModel>) -> nat
    decreases s.len(),
{
    if s.len() == 0 {
        0
    } else {
        total_width(s.drop_last()) + leaf_bits(s.last())
    }
}

/// Fixed leaves whose values fit.
pub open spec fn well_fixed(s: Seq<LeafModel>) -> bool {
    forall|i: int| 0 <= i < s.len() ==> ((#[trigger] s[i]) matches LeafModel::Fixed { bits, desc, radix } && radix_fits(radix, bits))
}

pub proof fn lemma_packed_bound(s: Seq<LeafModel>)
    requires
        well_fixed(s),
    ensures
        0 <= packed(s) < pow2(total_width(s)),
    decreases s.len(),
{
    if s.len() > 0 {
        let l = s.last();
        assert(s[s.len() - 1] == l);
        assert(well_fixed(s.drop_last()));
        lemma_packed_bound(s.drop_last());
        lemma_pow2_adds(total_width(s.drop_last()), leaf_bits(l));
        let (p, q, w, d) = (packed(s.drop_last()), pow2(total_width(s.drop_last())) as int, pow2(leaf_bits(l)) as int, directed(l));
        assert(0 <= d < w);
        assert(0 <= p * w + d < q * w) by (nonlinear_arith)
            requires
                0 <= p < q,
                0 <= d < w,
        ;
    } else {
        lemma2_to64();
    }
}

/// The order of packed leaves is the order of keys.
pub proof fn packed_order(a: Seq<LeafModel>, b: Seq<LeafModel>, parts: Seq<Part>)
    requires
        shaped(a, parts),
        shaped(b, parts),
        none_bytes(parts),
    ensures
        packed(a) <= packed(b) <==> key_le(a, b),
        packed(a) == packed(b) <==> a == b,
    decreases a.len(),
{
    if a.len() > 0 {
        let (x, y) = (a.drop_last(), b.drop_last());
        let (l, m) = (a.last(), b.last());
        let q = parts.drop_last();
        assert(part_of(a[a.len() - 1]) == parts[a.len() - 1] && part_of(b[a.len() - 1]) == parts[a.len() - 1]);
        assert(!parts[a.len() - 1].bytes);
        assert(shaped(x, q)) by {
            assert forall|i: int| 0 <= i < x.len() implies part_of(#[trigger] x[i]) == q[i] by {
                assert(x[i] == a[i]);
            }
        }
        assert(shaped(y, q)) by {
            assert forall|i: int| 0 <= i < y.len() implies part_of(#[trigger] y[i]) == q[i] by {
                assert(y[i] == b[i]);
            }
        }
        assert(none_bytes(q)) by {
            assert forall|i: int| 0 <= i < q.len() implies !(#[trigger] q[i]).bytes by {
                assert(!parts[i].bytes);
            }
        }
        packed_order(x, y, q);
        lemma_key_add(x, seq![l], y, seq![m]);
        assert(a =~= x + seq![l]);
        assert(b =~= y + seq![m]);
        assert(key_le(seq![l], seq![m]) == leaf_le(l, m) || l == m) by {
            reveal_with_fuel(key_le_from, 2);
            if l != m {
                assert(seq![l][0] != seq![m][0]);
            }
        }
        key_order_total(seq![l], seq![m]);
        if l != m {
            assert(seq![l][0] != seq![m][0]);
        }
        let (p, r, w) = (packed(x), packed(y), pow2(leaf_bits(l)) as int);
        let (d, e) = (directed(l), directed(m));
        assert(a[a.len() - 1] == l && b[b.len() - 1] == m);
        assert(0 <= d < w && 0 <= e < w);
        assert(p < r ==> p * w + d < r * w + e) by (nonlinear_arith)
            requires
                0 <= d < w,
                0 <= e < w,
        ;
        assert(r < p ==> r * w + e < p * w + d) by (nonlinear_arith)
            requires
                0 <= d < w,
                0 <= e < w,
        ;
        assert(packed(a) == p * w + d);
        assert(packed(b) == r * w + e);
    } else {
        assert(a =~= b);
    }
}

pub proof fn lemma_shaped_fixed(s: Seq<LeafModel>, parts: Seq<Part>)
    requires
        shaped(s, parts),
        none_bytes(parts),
    ensures
        well_fixed(s),
        total_width(s) == width_sum(parts),
    decreases s.len(),
{
    assert forall|i: int| 0 <= i < s.len() implies ((#[trigger] s[i]) matches LeafModel::Fixed { bits, desc, radix } && radix_fits(radix, bits)) by {
        assert(part_of(s[i]) == parts[i]);
        assert(!parts[i].bytes);
    }
    if s.len() > 0 {
        let (t, q) = (s.drop_last(), parts.drop_last());
        assert(part_of(s[s.len() - 1]) == parts[s.len() - 1]);
        assert forall|i: int| 0 <= i < t.len() implies part_of(#[trigger] t[i]) == q[i] by {
            assert(t[i] == s[i]);
        }
        assert forall|i: int| 0 <= i < t.len() implies ((#[trigger] t[i]) matches LeafModel::Fixed { bits, desc, radix } ==> radix_fits(radix, bits)) by {
            assert(t[i] == s[i]);
        }
        assert forall|i: int| 0 <= i < q.len() implies !(#[trigger] q[i]).bytes by {
            assert(!parts[i].bytes);
        }
        lemma_shaped_fixed(t, q);
    }
}

/// Packs fixed leaves of at most `MAX` bits in all.
struct Pack<const MAX: usize> {
    acc: u64,
    seen: Ghost<Seq<LeafModel>>,
}

impl<'a, const MAX: usize> PartSink<'a> for Pack<MAX> {
    closed spec fn log(&self) -> Seq<LeafModel> {
        self.seen@
    }

    closed spec fn ready(&self) -> bool {
        MAX <= 64 && (well_fixed(self.seen@) && total_width(self.seen@) <= MAX ==> self.acc == packed(self.seen@))
    }

    fn fixed(&mut self, radix: u64, bits: u8, desc: bool) {
        let ghost s = self.seen@;
        let ghost l = LeafModel::Fixed { bits, desc, radix };
        let ghost t = s.push(l);
        proof {
            lemma2_to64_rest();
            if bits < 64 {
                lemma_pow2_strictly_increases(bits as nat, 64);
            }
            assert(t.drop_last() =~= s);
            assert(t.last() == l);
        }
        let top: u64 = if bits >= 64 {
            u64::MAX
        } else {
            low_ones(bits)
        };
        let r: u64 = if desc {
            top - radix
        } else {
            radix
        };
        assert(r == directed(l));
        let old_acc: u64 = self.acc;
        self.acc = if bits >= 64 {
            r
        } else {
            (old_acc << bits).wrapping_add(r)
        };
        self.seen = Ghost(t);
        proof {
            if well_fixed(t) && total_width(t) <= MAX {
                assert forall|i: int| 0 <= i < s.len() implies ((#[trigger] s[i]) matches LeafModel::Fixed { bits, desc, radix } && radix_fits(radix, bits)) by {
                    assert(t[i] == s[i]);
                }
                lemma_packed_bound(s);
                lemma_packed_bound(t);
                if total_width(t) < 64 {
                    lemma_pow2_strictly_increases(total_width(t), 64);
                }
                assert(packed(t) == packed(s) * pow2(bits as nat) + r);
                if bits >= 64 {
                    lemma_no_width(s);
                    let (a, w) = (packed(s), pow2(bits as nat) as int);
                    assert(a * w == 0) by (nonlinear_arith)
                        requires
                            a == 0,
                    ;
                } else {
                    let (a, w) = (packed(s), pow2(bits as nat) as int);
                    assert(0 <= a * w) by (nonlinear_arith)
                        requires
                            a >= 0,
                            w >= 0,
                    ;
                    assert(old_acc == a);
                    lemma_u64_shl_is_mul(old_acc, bits as u64);
                    lemma_shl_same(old_acc, bits);
                    assert(old_acc << bits == a * w);
                    assert(self.acc == packed(t));
                }
            }
        }
    }

    fn bytes(&mut self, b: &'a [u8], desc: bool) {
        let ghost t = self.seen@.push(LeafModel::Bytes { desc, text: b@ });
        self.seen = Ghost(t);
        proof {
            assert(t[t.len() - 1] is Bytes);
        }
    }
}

/// Leaves without width pack to nothing.
proof fn lemma_no_width(s: Seq<LeafModel>)
    requires
        well_fixed(s),
        total_width(s) == 0,
    ensures
        packed(s) == 0,
{
    lemma_packed_bound(s);
    lemma2_to64();
}

proof fn lemma_shl_same(x: u64, b: u8)
    ensures
        x << b == x << (b as u64),
{
}

/// The number of `bits` ones.
pub fn low_ones(bits: u8) -> (r: u64)
    requires
        1 <= bits < 64,
    ensures
        r == pow2(bits as nat) - 1,
{
    proof {
        lemma2_to64_rest();
        lemma_pow2_strictly_increases(bits as nat, 64);
        lemma_pow2_pos(bits as nat);
        lemma_u64_shl_is_mul(1, bits as u64);
        lemma_shl_same(1, bits);
        assert(1u64 << bits == pow2(bits as nat));
    }
    (1u64 << bits) - 1
}

// ---- records -------------------------------------------------------------------------------------

/// No byte string is too long for a record.
pub open spec fn all_short(s: Seq<LeafModel>) -> bool {
    forall|i: int| 0 <= i < s.len() ==> ((#[trigger] s[i]) matches LeafModel::Bytes { desc, text } ==> text.len() <= SLOT_MAX)
}

/// A sorted record: its original index can be read and rewritten.
pub trait Record<'a>: Elem {
    /// The key shapes that the record holds.
    spec fn suits(parts: Seq<Part>) -> bool;

    /// The chunks of a record of the given leaves.
    spec fn chunks_for(leaves: Seq<LeafModel>) -> Seq<u64>;

    /// The original index.
    spec fn place(&self) -> u32;

    /// The spare word.
    spec fn kept_word(&self) -> u32;

    /// Records are ordered as the keys they stand for.
    proof fn order_kept(a: Seq<LeafModel>, b: Seq<LeafModel>, parts: Seq<Part>)
        requires
            Self::suits(parts),
            shaped(a, parts),
            shaped(b, parts),
            all_short(a),
            all_short(b),
        ensures
            lex_le(Self::chunks_for(a), Self::chunks_for(b)) == key_le(a, b),
    ;

    /// The record of `key` at index `idx`; `None` if the key cannot be
    /// represented (a string of 2^32 bytes or more).
    fn build<Q: Key + ?Sized>(key: &'a Q, idx: u32) -> (r: Option<Self>)
        requires
            Self::suits(Q::parts()),
        ensures
            r is Some <==> all_short(key.leaves()),
            r matches Some(x) ==> x.place() == idx && x.chunks() == Self::chunks_for(key.leaves()),
    ;

    /// The original index.
    fn index(&self) -> (r: u32)
        ensures
            r == self.place(),
    ;

    /// Rewrites the original index.
    fn set_index(&mut self, i: u32)
        ensures
            final(self).place() == i,
            final(self).chunks() == old(self).chunks(),
    ;

    /// Whether there is room for the spare word.
    spec fn room_for(word: u32) -> bool;

    /// Whether the radix value of a fixed key can be read off.
    spec fn has_value() -> bool;

    /// Remembers a spare word; `false` if there is no room for it.
    fn keep(&mut self, word: u32) -> (r: bool)
        ensures
            r == Self::room_for(word),
            r ==> final(self).kept_word() == word,
            final(self).place() == old(self).place(),
            final(self).chunks() == old(self).chunks(),
    ;

    /// The radix value of a fixed key and the spare word.
    fn value(&self) -> (r: Option<(u64, u32)>)
        ensures
            r is Some <==> Self::has_value(),
            r matches Some(v) ==> self.chunks() == seq![v.0] && v.1 == self.kept_word(),
    ;
}

/// Fixed keys of up to 32 bits. The key is stored as the signed integer whose
/// signed order equals the radix order.
#[derive(Clone, Copy, Debug, PartialEq, Eq, Structural)]
pub struct Rec32 {
    /// The signed form of the radix key.
    pub key: i32,
    /// The original index.
    pub idx: u32,
}

/// Fixed keys of up to 64 bits.
#[derive(Clone, Copy, Debug, PartialEq, Eq, Structural)]
pub struct Rec64 {
    /// The signed form of the radix key.
    pub key: i64,
    /// The original index.
    pub idx: u32,
    /// Spare (remembers a negative zero of a floating point number).
    pub pad: u32,
}

/// The radix key of a sorted 32-bit record, for the write-back of self-keyed
/// elements.
pub fn key_of32(r: &Rec32) -> (k: u64)
    ensures
        k == r.key + 0x8000_0000,
{
    (r.key as i64 + 0x8000_0000) as u64
}

/// The radix key of a sorted 64-bit record.
pub fn key_of64(r: &Rec64) -> (k: u64)
    ensures
        k == r.key + 0x8000_0000_0000_0000,
{
    (r.key as i128 + 0x8000_0000_0000_0000) as u64
}

/// Chunk sequences of one word are ordered by it.
pub proof fn lemma_one_chunk(x: u64, y: u64)
    ensures
        lex_le(seq![x], seq![y]) == (x <= y),
{
    reveal_with_fuel(lex_le_from, 2);
}

impl Elem for Rec32 {
    type Key = u32;

    open spec fn chunks(&self) -> Seq<u64> {
        seq![(self.key + 0x8000_0000) as u64]
    }

    proof fn chunks_fit(&self) {
        0u32.word_fits();
    }

    proof fn chunks_end_together(a: Self, b: Self, c: int) {
    }

    open spec fn has_chunks() -> bool {
        false
    }

    fn chunked() -> (r: bool) {
        false
    }

    fn less(a: Self, b: Self) -> (r: bool) {
        proof {
            lemma_one_chunk(b.chunks()[0], a.chunks()[0]);
        }
        a.key < b.key
    }

    fn compare(a: Self, b: Self) -> (r: i32) {
        proof {
            lemma_one_chunk(b.chunks()[0], a.chunks()[0]);
            lemma_one_chunk(a.chunks()[0], b.chunks()[0]);
        }
        if a.key < b.key {
            -1
        } else if a.key > b.key {
            1
        } else {
            0
        }
    }

    fn compare_from(a: Self, b: Self, chunk: u64) -> (r: i32) {
        Self::compare(a, b)
    }

    fn radix_key(a: Self, chunk: u64) -> (r: Self::Key) {
        (a.key as i64 + 0x8000_0000) as u32
    }

    fn chunk_ends(a: Self, chunk: u64) -> (r: bool) {
        true
    }

    open spec fn key_load(&self, chunk: int) -> int {
        0
    }

    open spec fn compare_load(&self, other: &Self, chunk: int) -> int {
        0
    }

    fn key_bytes(a: Self, chunk: u64) -> (r: u64) {
        0
    }

    fn compare_bytes(a: Self, b: Self, chunk: u64) -> (r: u64) {
        0
    }
}

impl Elem for Rec64 {
    type Key = u64;

    open spec fn chunks(&self) -> Seq<u64> {
        seq![(self.key + 0x8000_0000_0000_0000) as u64]
    }

    proof fn chunks_fit(&self) {
        self.chunks()[0].word_fits();
    }

    proof fn chunks_end_together(a: Self, b: Self, c: int) {
    }

    open spec fn has_chunks() -> bool {
        false
    }

    fn chunked() -> (r: bool) {
        false
    }

    fn less(a: Self, b: Self) -> (r: bool) {
        proof {
            lemma_one_chunk(b.chunks()[0], a.chunks()[0]);
        }
        a.key < b.key
    }

    fn compare(a: Self, b: Self) -> (r: i32) {
        proof {
            lemma_one_chunk(b.chunks()[0], a.chunks()[0]);
            lemma_one_chunk(a.chunks()[0], b.chunks()[0]);
        }
        if a.key < b.key {
            -1
        } else if a.key > b.key {
            1
        } else {
            0
        }
    }

    fn compare_from(a: Self, b: Self, chunk: u64) -> (r: i32) {
        Self::compare(a, b)
    }

    fn radix_key(a: Self, chunk: u64) -> (r: Self::Key) {
        key_of64(&a)
    }

    fn chunk_ends(a: Self, chunk: u64) -> (r: bool) {
        true
    }

    open spec fn key_load(&self, chunk: int) -> int {
        0
    }

    open spec fn compare_load(&self, other: &Self, chunk: int) -> int {
        0
    }

    fn key_bytes(a: Self, chunk: u64) -> (r: u64) {
        0
    }

    fn compare_bytes(a: Self, b: Self, chunk: u64) -> (r: u64) {
        0
    }
}

/// A key of up to 32 bits and nothing else.
#[derive(Clone, Copy, Debug, PartialEq, Eq, Structural)]
pub struct Key32 {
    /// The signed form of the radix key.
    pub key: i32,
}

/// A key of up to 64 bits and nothing else.
#[derive(Clone, Copy, Debug, PartialEq, Eq, Structural)]
pub struct Key64 {
    /// The signed form of the radix key.
    pub key: i64,
}

impl Elem for Key32 {
    type Key = u32;

    open spec fn chunks(&self) -> Seq<u64> {
        seq![(self.key + 0x8000_0000) as u64]
    }

    proof fn chunks_fit(&self) {
        0u32.word_fits();
    }

    proof fn chunks_end_together(a: Self, b: Self, c: int) {
    }

    open spec fn has_chunks() -> bool {
        false
    }

    fn chunked() -> (r: bool) {
        false
    }

    fn less(a: Self, b: Self) -> (r: bool) {
        proof {
            lemma_one_chunk(b.chunks()[0], a.chunks()[0]);
        }
        a.key < b.key
    }

    fn compare(a: Self, b: Self) -> (r: i32) {
        proof {
            lemma_one_chunk(b.chunks()[0], a.chunks()[0]);
            lemma_one_chunk(a.chunks()[0], b.chunks()[0]);
        }
        if a.key < b.key {
            -1
        } else if a.key > b.key {
            1
        } else {
            0
        }
    }

    fn compare_from(a: Self, b: Self, chunk: u64) -> (r: i32) {
        Self::compare(a, b)
    }

    fn radix_key(a: Self, chunk: u64) -> (r: Self::Key) {
        (a.key as i64 + 0x8000_0000) as u32
    }

    fn chunk_ends(a: Self, chunk: u64) -> (r: bool) {
        true
    }

    open spec fn key_load(&self, chunk: int) -> int {
        0
    }

    open spec fn compare_load(&self, other: &Self, chunk: int) -> int {
        0
    }

    fn key_bytes(a: Self, chunk: u64) -> (r: u64) {
        0
    }

    fn compare_bytes(a: Self, b: Self, chunk: u64) -> (r: u64) {
        0
    }
}

impl Elem for Key64 {
    type Key = u64;

    open spec fn chunks(&self) -> Seq<u64> {
        seq![(self.key + 0x8000_0000_0000_0000) as u64]
    }

    proof fn chunks_fit(&self) {
        self.chunks()[0].word_fits();
    }

    proof fn chunks_end_together(a: Self, b: Self, c: int) {
    }

    open spec fn has_chunks() -> bool {
        false
    }

    fn chunked() -> (r: bool) {
        false
    }

    fn less(a: Self, b: Self) -> (r: bool) {
        proof {
            lemma_one_chunk(b.chunks()[0], a.chunks()[0]);
        }
        a.key < b.key
    }

    fn compare(a: Self, b: Self) -> (r: i32) {
        proof {
            lemma_one_chunk(b.chunks()[0], a.chunks()[0]);
            lemma_one_chunk(a.chunks()[0], b.chunks()[0]);
        }
        if a.key < b.key {
            -1
        } else if a.key > b.key {
            1
        } else {
            0
        }
    }

    fn compare_from(a: Self, b: Self, chunk: u64) -> (r: i32) {
        Self::compare(a, b)
    }

    fn radix_key(a: Self, chunk: u64) -> (r: Self::Key) {
        (a.key as i128 + 0x8000_0000_0000_0000) as u64
    }

    fn chunk_ends(a: Self, chunk: u64) -> (r: bool) {
        true
    }

    open spec fn key_load(&self, chunk: int) -> int {
        0
    }

    open spec fn compare_load(&self, other: &Self, chunk: int) -> int {
        0
    }

    fn key_bytes(a: Self, chunk: u64) -> (r: u64) {
        0
    }

    fn compare_bytes(a: Self, b: Self, chunk: u64) -> (r: u64) {
        0
    }
}

/// Fixed leaves of at most `max` bits in all.
pub open spec fn fixed_within(parts: Seq<Part>, max: int) -> bool {
    none_bytes(parts) && width_sum(parts) <= max
}

proof fn lemma_packed_chunks(a: Seq<LeafModel>, b: Seq<LeafModel>, parts: Seq<Part>)
    requires
        fixed_within(parts, 64),
        shaped(a, parts),
        shaped(b, parts),
    ensures
        lex_le(seq![packed(a) as u64], seq![packed(b) as u64]) == key_le(a, b),
{
    lemma_shaped_fixed(a, parts);
    lemma_shaped_fixed(b, parts);
    lemma_packed_fits(a, 64);
    lemma_packed_fits(b, 64);
    packed_order(a, b, parts);
    lemma_one_chunk(packed(a) as u64, packed(b) as u64);
}

proof fn lemma_packed_fits(s: Seq<LeafModel>, max: nat)
    requires
        well_fixed(s),
        total_width(s) <= max <= 64,
    ensures
        0 <= packed(s) < pow2(max) <= 0x1_0000_0000_0000_0000,
        max == 32 ==> packed(s) <= 0xFFFF_FFFF,
{
    lemma_packed_bound(s);
    lemma2_to64();
    lemma2_to64_rest();
    if total_width(s) < max {
        lemma_pow2_strictly_increases(total_width(s), max);
    }
    if max < 64 {
        lemma_pow2_strictly_increases(max, 64);
    }
}

/// Fixed leaves hold no byte string.
pub proof fn lemma_fixed_short(s: Seq<LeafModel>, parts: Seq<Part>)
    requires
        none_bytes(parts),
        shaped(s, parts),
    ensures
        all_short(s),
        turned(s, false) == s,
{
    assert forall|i: int| 0 <= i < s.len() implies ((#[trigger] s[i]) matches LeafModel::Bytes { desc, text } ==> text.len() <= SLOT_MAX) by {
        assert(part_of(s[i]) == parts[i]);
        assert(!parts[i].bytes);
    }
}

/// The leaves of a fixed key, packed.
fn pack<'a, K: Key + ?Sized, const MAX: usize>(key: &'a K) -> (r: u64)
    requires
        MAX <= 64,
        fixed_within(K::parts(), MAX as int),
    ensures
        r == packed(key.leaves()),
        MAX == 32 ==> r <= 0xFFFF_FFFF,
{
    let mut sink = Pack::<MAX> { acc: 0, seen: Ghost(Seq::empty()) };
    key.write_parts(false, &mut sink);
    proof {
        key.leaves_shaped();
        let s = key.leaves();
        assert(Seq::<LeafModel>::empty() + s =~= s);
        lemma_shaped_fixed(s, K::parts());
        lemma_packed_fits(s, MAX as nat);
    }
    sink.acc
}

impl<'a> Record<'a> for Rec32 {
    open spec fn suits(parts: Seq<Part>) -> bool {
        fixed_within(parts, 32)
    }

    open spec fn chunks_for(leaves: Seq<LeafModel>) -> Seq<u64> {
        seq![packed(leaves) as u64]
    }

    open spec fn place(&self) -> u32 {
        self.idx
    }

    open spec fn kept_word(&self) -> u32 {
        0
    }

    proof fn order_kept(a: Seq<LeafModel>, b: Seq<LeafModel>, parts: Seq<Part>) {
        lemma_packed_chunks(a, b, parts);
    }

    fn build<Q: Key + ?Sized>(key: &'a Q, idx: u32) -> (r: Option<Self>) {
        let acc: u64 = pack::<Q, 32>(key);
        proof {
            key.leaves_shaped();
            lemma_fixed_short(key.leaves(), Q::parts());
        }
        Some(Rec32 { key: (acc as i64 - 0x8000_0000) as i32, idx })
    }

    fn index(&self) -> (r: u32) {
        self.idx
    }

    fn set_index(&mut self, i: u32) {
        self.idx = i;
    }

    open spec fn room_for(word: u32) -> bool {
        word == 0
    }

    open spec fn has_value() -> bool {
        true
    }

    fn keep(&mut self, word: u32) -> (r: bool) {
        word == 0
    }

    fn value(&self) -> (r: Option<(u64, u32)>) {
        Some((key_of32(self), 0))
    }
}

impl<'a> Record<'a> for Rec64 {
    open spec fn suits(parts: Seq<Part>) -> bool {
        fixed_within(parts, 64)
    }

    open spec fn chunks_for(leaves: Seq<LeafModel>) -> Seq<u64> {
        seq![packed(leaves) as u64]
    }

    open spec fn place(&self) -> u32 {
        self.idx
    }

    open spec fn kept_word(&self) -> u32 {
        self.pad
    }

    proof fn order_kept(a: Seq<LeafModel>, b: Seq<LeafModel>, parts: Seq<Part>) {
        lemma_packed_chunks(a, b, parts);
    }

    fn build<Q: Key + ?Sized>(key: &'a Q, idx: u32) -> (r: Option<Self>) {
        let acc: u64 = pack::<Q, 64>(key);
        proof {
            key.leaves_shaped();
            lemma_fixed_short(key.leaves(), Q::parts());
        }
        Some(Rec64 { key: (acc as i128 - 0x8000_0000_0000_0000) as i64, idx, pad: 0 })
    }

    fn index(&self) -> (r: u32) {
        self.idx
    }

    fn set_index(&mut self, i: u32) {
        self.idx = i;
    }

    open spec fn room_for(word: u32) -> bool {
        true
    }

    open spec fn has_value() -> bool {
        true
    }

    fn keep(&mut self, word: u32) -> (r: bool) {
        self.pad = word;
        true
    }

    fn value(&self) -> (r: Option<(u64, u32)>) {
        Some((key_of64(self), self.pad))
    }
}

/// A double is written back from its record as well: the radix transform is a
/// bijection on every bit pattern except that `-0.0` and `+0.0` share a key, so
/// the record's spare word remembers a negative zero.
pub fn note_negative_zero(r: &mut Rec64, bits: u64)
    ensures
        *final(r) == (Rec64 {
            pad: if bits == 0x8000_0000_0000_0000 {
                1
            } else {
                0
            },
            ..*old(r)
        }),
{
    r.pad = if bits == 0x8000_0000_0000_0000 {
        1
    } else {
        0
    };
}

/// The bits of the double of a sorted record.
pub fn double_of(r: &Rec64) -> (bits: u64)
    ensures
        forall|b: u64| is_double(*r, b) ==> bits == b,
{
    f64_from_radix(key_of64(r), r.pad != 0)
}

/// The record is that of the double with the given bits.
pub open spec fn is_double(r: Rec64, bits: u64) -> bool {
    &&& r.key == f64_magnitude(bits)
    &&& r.pad == if bits == 0x8000_0000_0000_0000 {
        1int
    } else {
        0int
    }
}

} // verus!
