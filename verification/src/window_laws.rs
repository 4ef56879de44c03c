//! What the inference of a window and the reading of the caches promise, said of
//! plain numbers.
use crate::cpu::{cache_at, cache_question_of, described, or_default, usual_machine, CacheLeaf};
use crate::infer::{
    agrees, beats, best_of, cand_fits, cand_radix, denormal, inferred, outcomes_of, pairs_of,
    plausible, rank_of, stride_of, word_at, Cand, Kind, PlainBytes,
};
use crate::key::number::{F32Bits, F64Bits};
use vstd::arithmetic::div_mod::lemma_div_denominator;
use vstd::arithmetic::power2::{
    lemma2_to64, lemma2_to64_rest, lemma_pow2_adds, lemma_pow2_pos, pow2,
};
use vstd::bits::{
    lemma_u128_shr_is_div, lemma_u16_shr_is_div, lemma_u32_shr_is_div, lemma_u64_shr_is_div,
};
use vstd::prelude::*;

verus! {

// ---- the bytes of a number -----------------------------------------------------------------------

proof fn lemma_low_byte(y: u128)
    ensures
        y as u8 == y % 256,
{
    assert(y as u8 == y % 256) by (bit_vector);
}

proof fn lemma_byte16(x: u16, i: int)
    requires
        0 <= i < 2,
    ensures
        (x >> (8 * i) as u16) as u8 == x as int / pow2((8 * i) as nat) as int % 256,
{
    lemma_u16_shr_is_div(x, (8 * i) as u16);
    lemma_low_byte((x >> (8 * i) as u16) as u128);
}

proof fn lemma_byte32(x: u32, i: int)
    requires
        0 <= i < 4,
    ensures
        (x >> (8 * i) as u32) as u8 == x as int / pow2((8 * i) as nat) as int % 256,
{
    lemma_u32_shr_is_div(x, (8 * i) as u32);
    lemma_low_byte((x >> (8 * i) as u32) as u128);
}

proof fn lemma_byte64(x: u64, i: int)
    requires
        0 <= i < 8,
    ensures
        (x >> (8 * i) as u64) as u8 == x as int / pow2((8 * i) as nat) as int % 256,
{
    lemma_u64_shr_is_div(x, (8 * i) as u64);
    lemma_low_byte((x >> (8 * i) as u64) as u128);
}

proof fn lemma_byte128(x: u128, i: int)
    requires
        0 <= i < 16,
    ensures
        (x >> (8 * i) as u128) as u8 == x as int / pow2((8 * i) as nat) as int % 256,
{
    lemma_u128_shr_is_div(x, (8 * i) as u128);
    lemma_low_byte((x >> (8 * i) as u128) as u128);
}

/// Numbers of one byte are that byte.
pub proof fn bytes_of_one(x: u8, y: i8, b: bool)
    ensures
        x.bytes() == seq![x],
        y.bytes().len() == 1,
        y.bytes()[0] == y as u8,
        b.bytes() == seq![b as u8],
{
}

/// The bytes of a number of two bytes stand least significant first, those of a
/// negative number as its complement.
pub proof fn bytes_of_two(x: u16, y: i16, i: int)
    requires
        0 <= i < 2,
    ensures
        x.bytes().len() == 2 && y.bytes().len() == 2,
        x.bytes()[i] == x as int / pow2((8 * i) as nat) as int % 256,
        y.bytes()[i] == (y as u16) as int / pow2((8 * i) as nat) as int % 256,
{
    lemma_byte16(x, i);
    lemma_byte16(y as u16, i);
}

/// The bytes of a number of four bytes stand least significant first, those of a
/// negative number as its complement, of a character as its number, and of a float
/// as its bits.
pub proof fn bytes_of_four(x: u32, y: i32, c: char, f: F32Bits, i: int)
    requires
        0 <= i < 4,
    ensures
        x.bytes().len() == 4 && y.bytes().len() == 4 && c.bytes().len() == 4 && f.bytes().len() == 4,
        x.bytes()[i] == x as int / pow2((8 * i) as nat) as int % 256,
        y.bytes()[i] == (y as u32) as int / pow2((8 * i) as nat) as int % 256,
        c.bytes()[i] == c as int / pow2((8 * i) as nat) as int % 256,
        f.bytes()[i] == f.0 as int / pow2((8 * i) as nat) as int % 256,
{
    lemma_byte32(x, i);
    lemma_byte32(y as u32, i);
    lemma_byte32(c as u32, i);
    lemma_byte32(f.0, i);
}

/// The bytes of a number of eight bytes stand least significant first, those of a
/// negative number as its complement, and of a float as its bits.
pub proof fn bytes_of_eight(x: u64, y: i64, f: F64Bits, i: int)
    requires
        0 <= i < 8,
    ensures
        x.bytes().len() == 8 && y.bytes().len() == 8 && f.bytes().len() == 8,
        x.bytes()[i] == x as int / pow2((8 * i) as nat) as int % 256,
        y.bytes()[i] == (y as u64) as int / pow2((8 * i) as nat) as int % 256,
        f.bytes()[i] == f.0 as int / pow2((8 * i) as nat) as int % 256,
{
    lemma_byte64(x, i);
    lemma_byte64(y as u64, i);
    lemma_byte64(f.0, i);
}

/// The bytes of a size stand least significant first, those of a negative one as its
/// complement.
pub proof fn bytes_of_sizes(x: usize, y: isize, i: int)
    requires
        0 <= i < 8,
    ensures
        x.bytes().len() == 8 && y.bytes().len() == 8,
        x.bytes()[i] == x as int / pow2((8 * i) as nat) as int % 256,
        y.bytes()[i] == (y as i64 as u64) as int / pow2((8 * i) as nat) as int % 256,
{
    lemma_byte64(x as u64, i);
    lemma_byte64(y as i64 as u64, i);
}

/// The bytes of a number of sixteen bytes stand least significant first, those of a
/// negative number as its complement.
pub proof fn bytes_of_sixteen(x: u128, y: i128, i: int)
    requires
        0 <= i < 16,
    ensures
        x.bytes().len() == 16 && y.bytes().len() == 16,
        x.bytes()[i] == x as int / pow2((8 * i) as nat) as int % 256,
        y.bytes()[i] == (y as u128) as int / pow2((8 * i) as nat) as int % 256,
{
    lemma_byte128(x, i);
    lemma_byte128(y as u128, i);
}

/// The bytes of an array are those of its elements, one after the other.
pub proof fn bytes_of_arrays<T: PlainBytes, const N: usize>(a: [T; N], k: int, i: int)
    requires
        0 <= k < N,
        0 <= i < T::width(),
        T::width() * N <= usize::MAX,
    ensures
        a.bytes().len() == T::width() * N,
        a.bytes()[k * T::width() + i] == a@[k].bytes()[i],
{
    let w = T::width() as int;
    assert(0 <= k * w + i < w * N) by (nonlinear_arith)
        requires
            0 <= k < N,
            0 <= i < w,
    ;
    vstd::arithmetic::div_mod::lemma_fundamental_div_mod_converse(k * w + i, w, k, i);
}

// ---- windows -------------------------------------------------------------------------------------

/// A window holds its bytes, least significant first, and nothing above them.
pub proof fn windows_hold_their_bytes(b: Seq<u8>, off: int, n: int, i: int)
    requires
        0 <= off,
        0 <= i < n <= 8,
        off + n <= b.len(),
    ensures
        word_at(b, off, n) as int / pow2((8 * i) as nat) as int % 256 == b[off + i],
        word_at(b, off, n) < pow2((8 * n) as nat),
    decreases n,
{
    lemma2_to64();
    lemma2_to64_rest();
    let rest = word_at(b, off + 1, n - 1);
    let low = b[off] as u64;
    if n > 1 {
        windows_hold_their_bytes(b, off + 1, n - 1, if i > 0 {
            i - 1
        } else {
            0
        });
    } else {
        assert(rest == 0);
    }
    lemma_pow2_adds((8 * (n - 1)) as nat, 8);
    assert(8 * (n - 1) + 8 == 8 * n);
    assert(rest < pow2((8 * (n - 1)) as nat));
    assert(rest < 0x100_0000_0000_0000) by {
        if n < 8 {
            vstd::arithmetic::power2::lemma_pow2_strictly_increases((8 * (n - 1)) as nat, 56);
        }
    }
    let w = word_at(b, off, n);
    assert((rest << 8) | low == rest * 256 + low) by (bit_vector)
        requires
            rest < 0x100_0000_0000_0000,
            low < 256,
    ;
    assert(w == rest * 256 + low);
    if i > 0 {
        lemma_pow2_adds(8, (8 * (i - 1)) as nat);
        assert(8 + (8 * (i - 1)) as nat == (8 * i) as nat);
        lemma_pow2_pos((8 * (i - 1)) as nat);
        lemma_div_denominator(w as int, 256, pow2((8 * (i - 1)) as nat) as int);
        assert(w as int / 256 == rest);
        assert(256 * pow2((8 * (i - 1)) as nat) == pow2((8 * i) as nat));
        assert(w as int / pow2((8 * i) as nat) as int == rest as int / pow2((8 * (i - 1)) as nat) as int);
        assert(b[off + 1 + (i - 1)] == b[off + i]);
    } else {
        assert(pow2((8 * i) as nat) == 1);
        assert(w as int / 1 == w);
        assert(w as int % 256 == low);
    }
}

/// How wide a window is, and in what order the kinds are tried: the wide ones first,
/// and of one width signed, unsigned and float.
pub proof fn kinds_are_tried_wide_first(a: Kind, b: Kind)
    ensures
        Kind::I64.bytes() == 8 && Kind::U64.bytes() == 8 && Kind::F64.bytes() == 8,
        Kind::I32.bytes() == 4 && Kind::U32.bytes() == 4 && Kind::F32.bytes() == 4,
        Kind::I16.bytes() == 2 && Kind::U16.bytes() == 2,
        Kind::I8.bytes() == 1 && Kind::U8.bytes() == 1,
        0 <= a.place() < 10,
        a.place() == b.place() <==> a == b,
        a.bytes() > b.bytes() ==> a.place() < b.place(),
        a.bytes() == b.bytes() && (a is I64 || a is I32 || a is I16 || a is I8) ==> a.place() <= b.place(),
        a.bytes() == b.bytes() && (a is F64 || a is F32) ==> b.place() <= a.place(),
{
}

/// Windows are ordered as the numbers that they are read as: unsigned ones by the
/// word, signed ones with the upper half of the words before the lower.
pub proof fn windows_in_order(a: u64, b: u64)
    ensures
        a < 0x100 && b < 0x100 ==> (rank_of(Kind::U8, a) <= rank_of(Kind::U8, b)) == (a <= b),
        a < 0x100 && b < 0x100 && (a < 0x80) == (b < 0x80) ==> (rank_of(Kind::I8, a) <= rank_of(Kind::I8, b)) == (a <= b),
        a < 0x100 && b < 0x100 && a >= 0x80 && b < 0x80 ==> rank_of(Kind::I8, a) < rank_of(Kind::I8, b),
        a < 0x1_0000 && b < 0x1_0000 ==> (rank_of(Kind::U16, a) <= rank_of(Kind::U16, b)) == (a <= b),
        a < 0x1_0000 && b < 0x1_0000 && (a < 0x8000) == (b < 0x8000) ==> (rank_of(Kind::I16, a) <= rank_of(Kind::I16, b)) == (a <= b),
        a < 0x1_0000 && b < 0x1_0000 && a >= 0x8000 && b < 0x8000 ==> rank_of(Kind::I16, a) < rank_of(Kind::I16, b),
        a < 0x1_0000_0000 && b < 0x1_0000_0000 ==> (rank_of(Kind::U32, a) <= rank_of(Kind::U32, b)) == (a <= b),
        a < 0x1_0000_0000 && b < 0x1_0000_0000 && (a < 0x8000_0000) == (b < 0x8000_0000) ==> (rank_of(Kind::I32, a) <= rank_of(Kind::I32, b)) == (a <= b),
        a < 0x1_0000_0000 && b < 0x1_0000_0000 && a >= 0x8000_0000 && b < 0x8000_0000 ==> rank_of(Kind::I32, a) < rank_of(Kind::I32, b),
        (rank_of(Kind::U64, a) <= rank_of(Kind::U64, b)) == (a <= b),
        (a < 0x8000_0000_0000_0000) == (b < 0x8000_0000_0000_0000) ==> (rank_of(Kind::I64, a) <= rank_of(Kind::I64, b)) == (a <= b),
        a >= 0x8000_0000_0000_0000 && b < 0x8000_0000_0000_0000 ==> rank_of(Kind::I64, a) < rank_of(Kind::I64, b),
{
    assert((a < 0x100 && b < 0x100 && (a < 0x80) == (b < 0x80) ==> ((a as u8 as i8) <= (b as u8 as i8)) == (a <= b))
        && (a < 0x100 && b < 0x100 && a >= 0x80 && b < 0x80 ==> (a as u8 as i8) < (b as u8 as i8))
        && (a < 0x1_0000 && b < 0x1_0000 && (a < 0x8000) == (b < 0x8000) ==> ((a as u16 as i16) <= (b as u16 as i16)) == (a <= b))
        && (a < 0x1_0000 && b < 0x1_0000 && a >= 0x8000 && b < 0x8000 ==> (a as u16 as i16) < (b as u16 as i16))
        && (a < 0x1_0000_0000 && b < 0x1_0000_0000 && (a < 0x8000_0000) == (b < 0x8000_0000) ==> ((a as u32 as i32) <= (b as u32 as i32)) == (a <= b))
        && (a < 0x1_0000_0000 && b < 0x1_0000_0000 && a >= 0x8000_0000 && b < 0x8000_0000 ==> (a as u32 as i32) < (b as u32 as i32))
        && ((a < 0x8000_0000_0000_0000) == (b < 0x8000_0000_0000_0000) ==> ((a as i64) <= (b as i64)) == (a <= b))
        && (a >= 0x8000_0000_0000_0000 && b < 0x8000_0000_0000_0000 ==> (a as i64) < (b as i64))) by (bit_vector);
}

/// Windows that are read as floats are ordered by their bits: without a sign by the
/// pattern, with one the other way round and before those without, and the two zeros
/// tied.
pub proof fn floating_windows_in_order(a: u64, b: u64, c: u32, d: u32)
    ensures
        a < 0x8000_0000_0000_0000 && b < 0x8000_0000_0000_0000 ==> (rank_of(Kind::F64, a) <= rank_of(Kind::F64, b)) == (a <= b),
        a >= 0x8000_0000_0000_0000 && b >= 0x8000_0000_0000_0000 ==> (rank_of(Kind::F64, a) <= rank_of(Kind::F64, b)) == (b <= a),
        a >= 0x8000_0000_0000_0000 && b < 0x8000_0000_0000_0000 ==> rank_of(Kind::F64, a) <= rank_of(Kind::F64, b),
        a >= 0x8000_0000_0000_0000 && b < 0x8000_0000_0000_0000 ==> (rank_of(Kind::F64, b) <= rank_of(Kind::F64, a)) == (a == 0x8000_0000_0000_0000 && b == 0),
        c < 0x8000_0000 && d < 0x8000_0000 ==> (rank_of(Kind::F32, c as u64) <= rank_of(Kind::F32, d as u64)) == (c <= d),
        c >= 0x8000_0000 && d >= 0x8000_0000 ==> (rank_of(Kind::F32, c as u64) <= rank_of(Kind::F32, d as u64)) == (d <= c),
        c >= 0x8000_0000 && d < 0x8000_0000 ==> rank_of(Kind::F32, c as u64) <= rank_of(Kind::F32, d as u64),
        c >= 0x8000_0000 && d < 0x8000_0000 ==> (rank_of(Kind::F32, d as u64) <= rank_of(Kind::F32, c as u64)) == (c == 0x8000_0000 && d == 0),
{
}

/// A candidate goes by its window, and one that descends orders elements the other
/// way round.
pub proof fn candidates_go_by_their_windows(c: Cand, a: Seq<u8>, b: Seq<u8>)
    ensures
        !c.desc ==> (cand_radix(c, a) <= cand_radix(c, b)) == (rank_of(c.kind, word_at(a, c.off as int, c.kind.bytes())) <= rank_of(
            c.kind,
            word_at(b, c.off as int, c.kind.bytes()),
        )),
        c.desc ==> (cand_radix(c, a) <= cand_radix(c, b)) == (rank_of(c.kind, word_at(b, c.off as int, c.kind.bytes())) <= rank_of(
            c.kind,
            word_at(a, c.off as int, c.kind.bytes()),
        )),
{
}

/// A window that is read as a float is a denormal where all bits of its exponent are
/// clear and it is no zero.
pub proof fn denormals_are_next_to_zero(w: u64)
    ensures
        denormal(Kind::F64, w) <==> 0 < w % 0x8000_0000_0000_0000 < 0x10_0000_0000_0000,
        w <= u32::MAX ==> (denormal(Kind::F32, w) <==> 0 < w % 0x8000_0000 < 0x80_0000),
{
    assert((w & 0x7FF0_0000_0000_0000u64 == 0 && w & 0x000F_FFFF_FFFF_FFFFu64 != 0) == (0 < w % 0x8000_0000_0000_0000 && w % 0x8000_0000_0000_0000 < 0x10_0000_0000_0000)
        && (w <= 0xFFFF_FFFF ==> (((w as u32) & 0x7F80_0000u32 == 0 && (w as u32) & 0x007F_FFFFu32 != 0) == (0 < w % 0x8000_0000 && w % 0x8000_0000 < 0x80_0000)))) by (bit_vector);
}

/// Of two candidates the wider is preferred; of one width a float that is plausible,
/// then a signed integer, then an unsigned one, then a float that is not; among equals
/// the one that is tried first.
pub proof fn wider_windows_are_preferred<T: PlainBytes>(c: Cand, d: Cand, v: Seq<T>, stride: int)
    ensures
        c.kind.bytes() > d.kind.bytes() ==> beats(c, d, v, stride) && !beats(d, c, v, stride),
        c.kind.bytes() == d.kind.bytes() && (c.kind is F32 || c.kind is F64) && plausible(c, v, stride) && !(d.kind is F32 || d.kind is F64) ==> beats(c, d, v, stride) && !beats(
            d,
            c,
            v,
            stride,
        ),
        c.kind.bytes() == d.kind.bytes() && (c.kind is F32 || c.kind is F64) && !plausible(c, v, stride) && !(d.kind is F32 || d.kind is F64) ==> beats(d, c, v, stride) && !beats(
            c,
            d,
            v,
            stride,
        ),
        c.kind.bytes() == d.kind.bytes() && (c.kind is I8 || c.kind is I16 || c.kind is I32 || c.kind is I64) && (d.kind is U8 || d.kind is U16 || d.kind is U32 || d.kind is U64)
            ==> beats(c, d, v, stride) && !beats(d, c, v, stride),
        c.kind == d.kind && c.kind !is F32 && c.kind !is F64 && c.off < d.off ==> beats(c, d, v, stride) && !beats(d, c, v, stride),
        c.kind == d.kind && c.kind !is F32 && c.kind !is F64 && c.off == d.off && !c.desc && d.desc ==> beats(c, d, v, stride) && !beats(d, c, v, stride),
{
}

/// A candidate agrees with the answers where each of them says what the windows of its
/// two elements say: less, greater or the same.
pub proof fn candidates_agree_with_every_answer<T: PlainBytes>(c: Cand, v: Seq<T>, stride: int, outcomes: Seq<i32>, k: int)
    requires
        agrees(c, v, stride, outcomes),
        0 <= k < outcomes.len(),
    ensures
        outcomes[k] == -1 <==> cand_radix(c, v[k * stride].bytes()) < cand_radix(c, v[k * stride + 1].bytes()),
        outcomes[k] == 1 <==> cand_radix(c, v[k * stride].bytes()) > cand_radix(c, v[k * stride + 1].bytes()),
        outcomes[k] == 0 <==> cand_radix(c, v[k * stride].bytes()) == cand_radix(c, v[k * stride + 1].bytes()),
{
}

/// A float window is plausible where none of the sampled elements has a denormal in it.
pub proof fn plausible_floats_are_no_denormals<T: PlainBytes>(c: Cand, v: Seq<T>, stride: int, k: int)
    requires
        stride > 0,
        0 <= k,
        k * stride < v.len(),
        plausible(c, v, stride),
    ensures
        !denormal(c.kind, word_at(v[k * stride].bytes(), c.off as int, c.kind.bytes())),
{
    assert(k * stride >= 0) by (nonlinear_arith)
        requires
            k >= 0,
            stride > 0,
    ;
    vstd::arithmetic::div_mod::lemma_mod_multiples_basic(k, stride);
}

/// A window lies inside the element, at a multiple of its width.
pub proof fn windows_are_aligned(c: Cand, size: int)
    ensures
        cand_fits(c, size) <==> c.off + c.kind.bytes() <= size && exists|k: int| c.off == #[trigger] (k * c.kind.bytes()),
{
    let b = c.kind.bytes();
    vstd::arithmetic::div_mod::lemma_fundamental_div_mod(c.off as int, b);
    vstd::arithmetic::mul::lemma_mul_is_commutative(b, c.off as int / b);
    if c.off as int % b == 0 {
        assert(c.off == (c.off as int / b) * b);
    }
    if exists|k: int| c.off == #[trigger] (k * b) {
        let k = choose|k: int| c.off == #[trigger] (k * b);
        vstd::arithmetic::div_mod::lemma_mod_multiples_basic(k, b);
    }
}

/// The pairs that the comparator is asked about: all neighbours of a short input,
/// 2048 of a long one, spread over the whole of it.
pub proof fn samples_are_spread(n: int)
    requires
        n >= 2,
    ensures
        n <= 2049 ==> pairs_of(n) == n - 1 && stride_of(n) == 1,
        n > 2049 ==> pairs_of(n) == 2048,
        pairs_of(n) * stride_of(n) < n <= pairs_of(n) * (stride_of(n) + 1),
{
    let p = pairs_of(n);
    vstd::arithmetic::div_mod::lemma_div_by_self(p);
    vstd::arithmetic::div_mod::lemma_fundamental_div_mod(n - 1, p);
    assert(p * (stride_of(n) + 1) == p * stride_of(n) + p) by (nonlinear_arith);
}

// ---- the caches ----------------------------------------------------------------------------------

/// What the registers say: the kind in the lowest five bits of the first, the level in
/// the next three; in the second, from the top, ten bits of ways, ten of partitions
/// and twelve of the line, and in the third the sets, each less one.
pub proof fn registers_describe_a_cache(l: CacheLeaf)
    ensures
        l.holds() == l.eax % 32,
        l.level() == l.eax / 32 % 8,
        l.product() == (l.ebx / 0x40_0000 + 1) * (l.ebx / 0x1000 % 0x400 + 1) * (l.ebx % 0x1000 + 1) * (l.ecx + 1),
        l.product() <= usize::MAX ==> l.bytes() == l.product(),
        l.product() > usize::MAX ==> l.bytes() == 0,
{
    lemma_register_bits(l.eax);
    lemma_register_bits(l.ebx);
}

proof fn lemma_register_bits(a: u32)
    ensures
        a & 0x1F == a % 32,
        (a >> 5) & 7 == a / 32 % 8,
        (a >> 22) & 0x3FF == a / 0x40_0000,
        (a >> 12) & 0x3FF == a / 0x1000 % 0x400,
        a & 0xFFF == a % 0x1000,
        (a >> 22) & 1 == a / 0x40_0000 % 2,
{
    assert(a & 0x1F == a % 32 && (a >> 5) & 7 == a / 32 % 8 && (a >> 22) & 0x3FF == a / 0x40_0000 && (a >> 12) & 0x3FF == a / 0x1000 % 0x400 && a & 0xFFF == a % 0x1000 && (a
        >> 22) & 1 == a / 0x40_0000 % 2) by (bit_vector);
}

/// The answers that describe caches end before the first that describes none.
pub proof fn answers_end_at_the_first_without_a_cache(s: Seq<CacheLeaf>, k: int)
    requires
        0 <= k <= s.len(),
        forall|i: int| 0 <= i < k ==> (#[trigger] s[i]).eax % 32 != 0,
        k < s.len() ==> s[k].eax % 32 == 0,
    ensures
        described(s) == s.take(k),
    decreases s.len(),
{
    if s.len() > 0 {
        registers_describe_a_cache(s[0]);
        if k > 0 {
            assert forall|i: int| 0 <= i < k - 1 implies (#[trigger] s.skip(1)[i]).eax % 32 != 0 by {
                assert(s.skip(1)[i] == s[i + 1]);
            }
            answers_end_at_the_first_without_a_cache(s.skip(1), k - 1);
            assert(seq![s[0]] + s.skip(1).take(k - 1) =~= s.take(k));
        } else {
            assert(s.take(0) =~= Seq::<CacheLeaf>::empty());
        }
    } else {
        assert(s.take(0) =~= Seq::<CacheLeaf>::empty());
    }
}

/// The size of a level is that of the last cache of that level that is not for
/// instructions alone.
pub proof fn last_data_cache_of_a_level(s: Seq<CacheLeaf>, l: CacheLeaf, level: int)
    ensures
        cache_at(Seq::empty(), level) == 0,
        l.eax % 32 != 2 && l.eax / 32 % 8 == level ==> cache_at(s.push(l), level) == l.bytes(),
        l.eax % 32 == 2 || l.eax / 32 % 8 != level ==> cache_at(s.push(l), level) == cache_at(s, level),
{
    registers_describe_a_cache(l);
    assert(s.push(l).drop_last() =~= s);
}

/// A size that was read counts, and one that was not is that of a common core: 32 KiB,
/// 1 MiB and 32 MiB.
pub proof fn sizes_that_were_read_count(size: int)
    requires
        0 <= size <= usize::MAX,
    ensures
        size > 0 ==> or_default(size, usual_machine().caches.l1d) == size,
        or_default(0, usual_machine().caches.l1d) == 32 * 1024,
        or_default(0, usual_machine().caches.l2) == 1024 * 1024,
        or_default(0, usual_machine().caches.l3) == 32 * 1024 * 1024,
{
}

/// The extended question is asked where the processor has it and says so, the plain
/// one where it has that, and none otherwise.
pub proof fn question_goes_by_the_processor(most: u32, most_extended: u32, features: u32)
    ensures
        cache_question_of(most, most_extended, features) == Some(0x8000_001Du32) <==> most_extended >= 0x8000_001D && features / 0x40_0000 % 2 == 1,
        cache_question_of(most, most_extended, features) is None <==> most < 4 && !(most_extended >= 0x8000_001D && features / 0x40_0000 % 2 == 1),
        cache_question_of(most, most_extended, features) matches Some(q) ==> q == 4 || q == 0x8000_001D,
{
    lemma_register_bits(features);
}

/// What is inferred is a window that agrees with every sampled answer, and none where
/// all sampled pairs tie; where nothing is inferred otherwise, no window agrees.
pub proof fn inferred_windows_agree<T: PlainBytes>(le: spec_fn(T, T) -> bool, v: Seq<T>, r: Option<Cand>)
    requires
        inferred(le, v, r),
        v.len() >= 2,
        T::width() > 0,
    ensures
        r matches Some(c) ==> cand_fits(c, T::width() as int) && agrees(c, v, stride_of(v.len() as int), outcomes_of(le, v)),
        (forall|k: int| 0 <= k < outcomes_of(le, v).len() ==> #[trigger] outcomes_of(le, v)[k] == 0) ==> r is None,
        r is None && (exists|k: int| 0 <= k < outcomes_of(le, v).len() && #[trigger] outcomes_of(le, v)[k] != 0) ==> forall|d: Cand|
            cand_fits(d, T::width() as int) ==> !#[trigger] agrees(d, v, stride_of(v.len() as int), outcomes_of(le, v)),
{
    if exists|k: int| 0 <= k < outcomes_of(le, v).len() && #[trigger] outcomes_of(le, v)[k] != 0 {
        assert(best_of(r, v, stride_of(v.len() as int), outcomes_of(le, v), |d: Cand| true));
    }
}

/// An answer of a sampled pair is what the order says of its two elements.
pub proof fn sampled_answers_are_those_of_the_order<T>(le: spec_fn(T, T) -> bool, v: Seq<T>, k: int)
    requires
        v.len() >= 2,
        0 <= k < pairs_of(v.len() as int),
        forall|x: T, y: T| #[trigger] le(x, y) || le(y, x),
    ensures
        outcomes_of(le, v).len() == pairs_of(v.len() as int),
        ({
            let (x, y) = (v[k * stride_of(v.len() as int)], v[k * stride_of(v.len() as int) + 1]);
            &&& outcomes_of(le, v)[k] == -1 <==> le(x, y) && !le(y, x)
            &&& outcomes_of(le, v)[k] == 1 <==> le(y, x) && !le(x, y)
            &&& outcomes_of(le, v)[k] == 0 <==> le(x, y) && le(y, x)
        }),
{
    let (x, y) = (v[k * stride_of(v.len() as int)], v[k * stride_of(v.len() as int) + 1]);
    assert(le(x, y) || le(y, x));
}

} // verus!
