//! How the keys of each type are ordered, and what follows for a sort by them.
use crate::key::{
    by_leaves, key_le, key_le_from, key_order_total, lemma_by_leaves_total, lemma_key_add,
    reversed_order, shaped, Key, LeafModel,
};
use crate::key::array::lemma_arrays_lengths;
use crate::key::compose::Desc;
use crate::key::number::{
    bool_radix, char_radix, f32_magnitude, f64_magnitude, i16_radix, i32_radix, i64_radix,
    i8_radix, isize_radix, one_fixed, u16_radix, u32_radix, u64_radix, u8_radix, usize_radix,
    F32Bits, F64Bits,
};
use crate::key::string::one_text;
use crate::laws::lemma_repeated_len;
use crate::order::{
    lemma_stable_sort_then, sorted_is_its_own_stable_sort, stable_sort_is_unique, stable_sort_of,
    then_by,
};
use crate::shape::Part;
use crate::text::{bytes_le, bytes_le_from, bytes_order_total};
use std::borrow::Cow;
use std::rc::Rc;
use std::sync::Arc;
use vstd::prelude::*;
use vstd::utf8::encode_utf8;

verus! {

/// Keys of one fixed leaf are ordered by its value.
pub proof fn fixed_in_order(bits: u8, x: u64, y: u64)
    ensures
        key_le(one_fixed(bits, x), one_fixed(bits, y)) == (x <= y),
{
    reveal_with_fuel(key_le_from, 2);
    if x != y {
        assert(one_fixed(bits, x)[0] != one_fixed(bits, y)[0]);
    }
}

/// The keys of `u8` are ordered as the numbers are.
pub proof fn u8_in_order(x: u8, y: u8)
    ensures
        key_le(x.leaves(), y.leaves()) == (x <= y),
{
    fixed_in_order(8, u8_radix(x), u8_radix(y));
}

/// The keys of `u16` are ordered as the numbers are.
pub proof fn u16_in_order(x: u16, y: u16)
    ensures
        key_le(x.leaves(), y.leaves()) == (x <= y),
{
    fixed_in_order(16, u16_radix(x), u16_radix(y));
}

/// The keys of `u32` are ordered as the numbers are.
pub proof fn u32_in_order(x: u32, y: u32)
    ensures
        key_le(x.leaves(), y.leaves()) == (x <= y),
{
    fixed_in_order(32, u32_radix(x), u32_radix(y));
}

/// The keys of `u64` are ordered as the numbers are.
pub proof fn u64_in_order(x: u64, y: u64)
    ensures
        key_le(x.leaves(), y.leaves()) == (x <= y),
{
    fixed_in_order(64, u64_radix(x), u64_radix(y));
}

/// The keys of `i8` are ordered as the numbers are.
pub proof fn i8_in_order(x: i8, y: i8)
    ensures
        key_le(x.leaves(), y.leaves()) == (x <= y),
{
    fixed_in_order(8, i8_radix(x), i8_radix(y));
}

/// The keys of `i16` are ordered as the numbers are.
pub proof fn i16_in_order(x: i16, y: i16)
    ensures
        key_le(x.leaves(), y.leaves()) == (x <= y),
{
    fixed_in_order(16, i16_radix(x), i16_radix(y));
}

/// The keys of `i32` are ordered as the numbers are.
pub proof fn i32_in_order(x: i32, y: i32)
    ensures
        key_le(x.leaves(), y.leaves()) == (x <= y),
{
    fixed_in_order(32, i32_radix(x), i32_radix(y));
}

/// The keys of `i64` are ordered as the numbers are.
pub proof fn i64_in_order(x: i64, y: i64)
    ensures
        key_le(x.leaves(), y.leaves()) == (x <= y),
{
    fixed_in_order(64, i64_radix(x), i64_radix(y));
}

/// The keys of `usize` are ordered as the numbers are.
pub proof fn usize_in_order(x: usize, y: usize)
    ensures
        key_le(x.leaves(), y.leaves()) == (x <= y),
{
    fixed_in_order(64, usize_radix(x), usize_radix(y));
}

/// The keys of `isize` are ordered as the numbers are.
pub proof fn isize_in_order(x: isize, y: isize)
    ensures
        key_le(x.leaves(), y.leaves()) == (x <= y),
{
    fixed_in_order(64, isize_radix(x), isize_radix(y));
}

/// The keys of `char` are ordered as the characters are.
pub proof fn char_in_order(x: char, y: char)
    ensures
        key_le(x.leaves(), y.leaves()) == (x <= y),
{
    fixed_in_order(32, char_radix(x), char_radix(y));
}

/// `false` comes before `true`.
pub proof fn bool_in_order(x: bool, y: bool)
    ensures
        key_le(x.leaves(), y.leaves()) == (x ==> y),
{
    fixed_in_order(1, bool_radix(x), bool_radix(y));
}

/// The keys of `u128` are ordered as the numbers are.
pub proof fn u128_in_order(x: u128, y: u128)
    ensures
        key_le(x.leaves(), y.leaves()) == (x <= y),
{
    reveal_with_fuel(key_le_from, 3);
}

/// The keys of `i128` are ordered as the numbers are.
pub proof fn i128_in_order(x: i128, y: i128)
    ensures
        key_le(x.leaves(), y.leaves()) == (x <= y),
{
    reveal_with_fuel(key_le_from, 3);
}

/// The magnitude of a pattern without a sign is the pattern, and with the sign it is
/// the opposite; only the two zeros share one.
pub proof fn magnitudes_are_signed(x: u64, y: u64, u: u32, v: u32)
    ensures
        x < 0x8000_0000_0000_0000 ==> f64_magnitude(x) == x && f64_magnitude((0x8000_0000_0000_0000 + x) as u64) == -x,
        f64_magnitude(x) == f64_magnitude(y) <==> x == y || x % 0x8000_0000_0000_0000 == 0 && y % 0x8000_0000_0000_0000 == 0,
        u < 0x8000_0000 ==> f32_magnitude(u) == u && f32_magnitude((0x8000_0000 + u) as u32) == -u,
        f32_magnitude(u) == f32_magnitude(v) <==> u == v || u % 0x8000_0000 == 0 && v % 0x8000_0000 == 0,
{
}

/// A 64-bit pattern is not a number: its exponent is full and its fraction is not
/// empty.
pub open spec fn f64_nan(bits: u64) -> bool {
    bits % 0x8000_0000_0000_0000 > 0x7FF0_0000_0000_0000
}

/// The keys of `f64` are ordered as the numbers are: those with the sign bit clear
/// by their patterns, those with it set the other way round and before them. The
/// two zeros are equal, and what is not a number stands at an end, on the side of
/// its sign.
pub proof fn f64_in_order(x: F64Bits, y: F64Bits)
    ensures
        key_le(x.leaves(), y.leaves()) == (f64_magnitude(x.0) <= f64_magnitude(y.0)),
        x.0 < 0x8000_0000_0000_0000 && y.0 < 0x8000_0000_0000_0000 ==> key_le(x.leaves(), y.leaves()) == (x.0 <= y.0),
        x.0 >= 0x8000_0000_0000_0000 && y.0 >= 0x8000_0000_0000_0000 ==> key_le(x.leaves(), y.leaves()) == (y.0 <= x.0),
        x.0 >= 0x8000_0000_0000_0000 && y.0 < 0x8000_0000_0000_0000 ==> key_le(x.leaves(), y.leaves()),
        x.0 >= 0x8000_0000_0000_0000 && y.0 < 0x8000_0000_0000_0000 ==> key_le(y.leaves(), x.leaves()) == (x.0 == 0x8000_0000_0000_0000 && y.0 == 0),
        x.0 == 0 && y.0 == 0x8000_0000_0000_0000 ==> x.leaves() == y.leaves(),
        !f64_nan(x.0) && f64_nan(y.0) && y.0 < 0x8000_0000_0000_0000 ==> !key_le(y.leaves(), x.leaves()),
        !f64_nan(x.0) && f64_nan(y.0) && y.0 >= 0x8000_0000_0000_0000 ==> !key_le(x.leaves(), y.leaves()),
{
    fixed_in_order(64, (0x8000_0000_0000_0000 + f64_magnitude(x.0)) as u64, (0x8000_0000_0000_0000 + f64_magnitude(y.0)) as u64);
    fixed_in_order(64, (0x8000_0000_0000_0000 + f64_magnitude(y.0)) as u64, (0x8000_0000_0000_0000 + f64_magnitude(x.0)) as u64);
}

/// A 32-bit pattern is not a number.
pub open spec fn f32_nan(bits: u32) -> bool {
    bits % 0x8000_0000 > 0x7F80_0000
}

/// The same of `f32`.
pub proof fn f32_in_order(x: F32Bits, y: F32Bits)
    ensures
        key_le(x.leaves(), y.leaves()) == (f32_magnitude(x.0) <= f32_magnitude(y.0)),
        x.0 < 0x8000_0000 && y.0 < 0x8000_0000 ==> key_le(x.leaves(), y.leaves()) == (x.0 <= y.0),
        x.0 >= 0x8000_0000 && y.0 >= 0x8000_0000 ==> key_le(x.leaves(), y.leaves()) == (y.0 <= x.0),
        x.0 >= 0x8000_0000 && y.0 < 0x8000_0000 ==> key_le(x.leaves(), y.leaves()),
        x.0 >= 0x8000_0000 && y.0 < 0x8000_0000 ==> key_le(y.leaves(), x.leaves()) == (x.0 == 0x8000_0000 && y.0 == 0),
        x.0 == 0 && y.0 == 0x8000_0000 ==> x.leaves() == y.leaves(),
        !f32_nan(x.0) && f32_nan(y.0) && y.0 < 0x8000_0000 ==> !key_le(y.leaves(), x.leaves()),
        !f32_nan(x.0) && f32_nan(y.0) && y.0 >= 0x8000_0000 ==> !key_le(x.leaves(), y.leaves()),
{
    fixed_in_order(32, (0x8000_0000 + f32_magnitude(x.0)) as u64, (0x8000_0000 + f32_magnitude(y.0)) as u64);
    fixed_in_order(32, (0x8000_0000 + f32_magnitude(y.0)) as u64, (0x8000_0000 + f32_magnitude(x.0)) as u64);
}

/// Text is ordered by its bytes, and a text comes after what it begins with.
pub proof fn text_in_order(x: Seq<u8>, y: Seq<u8>)
    ensures
        key_le(one_text(x), one_text(y)) == bytes_le(x, y),
{
    reveal_with_fuel(key_le_from, 2);
    bytes_order_total(x, y, 0);
    if x != y {
        assert(one_text(x)[0] != one_text(y)[0]);
    }
}

/// Byte strings are ordered by the first byte that differs, and one that ends there
/// comes first; only equal ones tie.
pub proof fn bytes_in_order(x: Seq<u8>, y: Seq<u8>)
    ensures
        bytes_le(x, y) && bytes_le(y, x) <==> x == y,
        forall|i: int| 0 <= i < x.len() && i < y.len() && #[trigger] x.take(i) == y.take(i) && x[i] < y[i] ==> bytes_le(x, y) && !bytes_le(y, x),
        x.len() < y.len() && y.take(x.len() as int) == x ==> bytes_le(x, y) && !bytes_le(y, x),
{
    bytes_order_total(x, y, 0);
    assert(x.skip(0) =~= x);
    assert(y.skip(0) =~= y);
    assert forall|i: int| 0 <= i < x.len() && i < y.len() && #[trigger] x.take(i) == y.take(i) && x[i] < y[i] implies bytes_le(x, y) && !bytes_le(y, x) by {
        lemma_bytes_agree(x, y, i, 0);
        lemma_bytes_agree(y, x, i, 0);
    }
    if x.len() < y.len() && y.take(x.len() as int) == x {
        let n = x.len() as int;
        assert(x.take(n) =~= x);
        lemma_bytes_agree(x, y, n, 0);
        lemma_bytes_agree(y, x, n, 0);
    }
}

proof fn lemma_bytes_agree(x: Seq<u8>, y: Seq<u8>, n: int, i: int)
    requires
        0 <= i <= n <= x.len(),
        n <= y.len(),
        x.take(n) == y.take(n),
    ensures
        bytes_le_from(x, y, i) == bytes_le_from(x, y, n),
    decreases n - i,
{
    if i < n {
        assert(x[i] == x.take(n)[i] && y[i] == y.take(n)[i]);
        lemma_bytes_agree(x, y, n, i + 1);
    }
}

/// The keys of `str` are ordered by the bytes of the text.
pub proof fn str_in_order(x: &str, y: &str)
    ensures
        key_le(x.leaves(), y.leaves()) == bytes_le(encode_utf8(x@), encode_utf8(y@)),
        key_le(x.leaves(), y.leaves()) && key_le(y.leaves(), x.leaves()) <==> encode_utf8(x@) == encode_utf8(y@),
        forall|i: int|
            0 <= i < encode_utf8(x@).len() && i < encode_utf8(y@).len() && #[trigger] encode_utf8(x@).take(i) == encode_utf8(y@).take(i) && encode_utf8(x@)[i] < encode_utf8(y@)[i] ==> key_le(x.leaves(), y.leaves())
                && !key_le(y.leaves(), x.leaves()),
        encode_utf8(x@).len() < encode_utf8(y@).len() && encode_utf8(y@).take(encode_utf8(x@).len() as int) == encode_utf8(x@) ==> key_le(x.leaves(), y.leaves()) && !key_le(y.leaves(), x.leaves()),
{
    text_in_order(encode_utf8(x@), encode_utf8(y@));
    text_in_order(encode_utf8(y@), encode_utf8(x@));
    bytes_in_order(encode_utf8(x@), encode_utf8(y@));
}

/// The keys of `String` are ordered by the bytes of the text.
pub proof fn string_in_order(x: String, y: String)
    ensures
        key_le(x.leaves(), y.leaves()) == bytes_le(encode_utf8(x@), encode_utf8(y@)),
        key_le(x.leaves(), y.leaves()) && key_le(y.leaves(), x.leaves()) <==> encode_utf8(x@) == encode_utf8(y@),
        forall|i: int|
            0 <= i < encode_utf8(x@).len() && i < encode_utf8(y@).len() && #[trigger] encode_utf8(x@).take(i) == encode_utf8(y@).take(i) && encode_utf8(x@)[i] < encode_utf8(y@)[i] ==> key_le(x.leaves(), y.leaves())
                && !key_le(y.leaves(), x.leaves()),
        encode_utf8(x@).len() < encode_utf8(y@).len() && encode_utf8(y@).take(encode_utf8(x@).len() as int) == encode_utf8(x@) ==> key_le(x.leaves(), y.leaves()) && !key_le(y.leaves(), x.leaves()),
{
    text_in_order(encode_utf8(x@), encode_utf8(y@));
    text_in_order(encode_utf8(y@), encode_utf8(x@));
    bytes_in_order(encode_utf8(x@), encode_utf8(y@));
}

/// The keys of `Cow<str>` are ordered by the bytes of the text, borrowed or owned.
pub proof fn cow_in_order<'a>(x: Cow<'a, str>, y: Cow<'a, str>)
    ensures
        key_le(x.leaves(), y.leaves()) == bytes_le(encode_utf8(x@), encode_utf8(y@)),
        key_le(x.leaves(), y.leaves()) && key_le(y.leaves(), x.leaves()) <==> encode_utf8(x@) == encode_utf8(y@),
        forall|i: int|
            0 <= i < encode_utf8(x@).len() && i < encode_utf8(y@).len() && #[trigger] encode_utf8(x@).take(i) == encode_utf8(y@).take(i) && encode_utf8(x@)[i] < encode_utf8(y@)[i] ==> key_le(x.leaves(), y.leaves())
                && !key_le(y.leaves(), x.leaves()),
        encode_utf8(x@).len() < encode_utf8(y@).len() && encode_utf8(y@).take(encode_utf8(x@).len() as int) == encode_utf8(x@) ==> key_le(x.leaves(), y.leaves()) && !key_le(y.leaves(), x.leaves()),
{
    text_in_order(encode_utf8(x@), encode_utf8(y@));
    text_in_order(encode_utf8(y@), encode_utf8(x@));
    bytes_in_order(encode_utf8(x@), encode_utf8(y@));
}

/// The keys of `[u8]` are ordered by the bytes.
pub proof fn byte_slice_in_order(x: &[u8], y: &[u8])
    ensures
        key_le(x.leaves(), y.leaves()) == bytes_le(x@, y@),
        key_le(x.leaves(), y.leaves()) && key_le(y.leaves(), x.leaves()) <==> x@ == y@,
        forall|i: int|
            0 <= i < x@.len() && i < y@.len() && #[trigger] x@.take(i) == y@.take(i) && x@[i] < y@[i] ==> key_le(x.leaves(), y.leaves())
                && !key_le(y.leaves(), x.leaves()),
        x@.len() < y@.len() && y@.take(x@.len() as int) == x@ ==> key_le(x.leaves(), y.leaves()) && !key_le(y.leaves(), x.leaves()),
{
    text_in_order(x@, y@);
    text_in_order(y@, x@);
    bytes_in_order(x@, y@);
}

/// The keys of `Vec<u8>` are ordered by the bytes.
pub proof fn byte_vector_in_order(x: Vec<u8>, y: Vec<u8>)
    ensures
        key_le(x.leaves(), y.leaves()) == bytes_le(x@, y@),
        key_le(x.leaves(), y.leaves()) && key_le(y.leaves(), x.leaves()) <==> x@ == y@,
        forall|i: int|
            0 <= i < x@.len() && i < y@.len() && #[trigger] x@.take(i) == y@.take(i) && x@[i] < y@[i] ==> key_le(x.leaves(), y.leaves())
                && !key_le(y.leaves(), x.leaves()),
        x@.len() < y@.len() && y@.take(x@.len() as int) == x@ ==> key_le(x.leaves(), y.leaves()) && !key_le(y.leaves(), x.leaves()),
{
    text_in_order(x@, y@);
    text_in_order(y@, x@);
    bytes_in_order(x@, y@);
}

/// A pair is ordered by its first key, and by its second where the first are
/// equal.
pub proof fn pair_in_order<A: Key, B: Key>(x: (A, B), y: (A, B))
    ensures
        x.0.leaves() == y.0.leaves() ==> key_le(x.leaves(), y.leaves()) == key_le(x.1.leaves(), y.1.leaves()),
        x.0.leaves() != y.0.leaves() ==> key_le(x.leaves(), y.leaves()) == key_le(x.0.leaves(), y.0.leaves()),
{
    x.0.leaves_shaped();
    y.0.leaves_shaped();
    lemma_key_add(x.0.leaves(), x.1.leaves(), y.0.leaves(), y.1.leaves());
}

/// A tuple of one key is ordered as the key.
pub proof fn single_in_order<A: Key>(x: (A,), y: (A,))
    ensures
        key_le(x.leaves(), y.leaves()) == key_le(x.0.leaves(), y.0.leaves()),
        x.leaves() == y.leaves() <==> x.0.leaves() == y.0.leaves(),
{
}

/// Three keys are ordered by the first of them that differs.
pub proof fn triple_in_order<A: Key, B: Key, C: Key>(x: (A, B, C), y: (A, B, C))
    ensures
        key_le(x.leaves(), y.leaves()) == if x.0.leaves() != y.0.leaves() {
            key_le(x.0.leaves(), y.0.leaves())
        } else if x.1.leaves() != y.1.leaves() {
            key_le(x.1.leaves(), y.1.leaves())
        } else {
            key_le(x.2.leaves(), y.2.leaves())
        },
        x.leaves() == y.leaves() <==> x.0.leaves() == y.0.leaves() && x.1.leaves() == y.1.leaves() && x.2.leaves() == y.2.leaves(),
{
    x.1.leaves_shaped();
    y.1.leaves_shaped();
    lemma_key_add(x.1.leaves(), x.2.leaves(), y.1.leaves(), y.2.leaves());
    x.0.leaves_shaped();
    y.0.leaves_shaped();
    lemma_key_add(x.0.leaves(), x.1.leaves() + x.2.leaves(), y.0.leaves(), y.1.leaves() + y.2.leaves());
}

/// Four keys are ordered by the first of them that differs.
pub proof fn tuple_of_four_in_order<A: Key, B: Key, C: Key, D: Key>(x: (A, B, C, D), y: (A, B, C, D))
    ensures
        key_le(x.leaves(), y.leaves()) == if x.0.leaves() != y.0.leaves() {
            key_le(x.0.leaves(), y.0.leaves())
        } else if x.1.leaves() != y.1.leaves() {
            key_le(x.1.leaves(), y.1.leaves())
        } else if x.2.leaves() != y.2.leaves() {
            key_le(x.2.leaves(), y.2.leaves())
        } else {
            key_le(x.3.leaves(), y.3.leaves())
        },
        x.leaves() == y.leaves() <==> x.0.leaves() == y.0.leaves() && x.1.leaves() == y.1.leaves() && x.2.leaves() == y.2.leaves() && x.3.leaves() == y.3.leaves(),
{
    x.2.leaves_shaped();
    y.2.leaves_shaped();
    lemma_key_add(x.2.leaves(), x.3.leaves(), y.2.leaves(), y.3.leaves());
    x.1.leaves_shaped();
    y.1.leaves_shaped();
    lemma_key_add(x.1.leaves(), x.2.leaves() + x.3.leaves(), y.1.leaves(), y.2.leaves() + y.3.leaves());
    x.0.leaves_shaped();
    y.0.leaves_shaped();
    lemma_key_add(x.0.leaves(), x.1.leaves() + (x.2.leaves() + x.3.leaves()), y.0.leaves(), y.1.leaves() + (y.2.leaves() + y.3.leaves()));
}

/// Five keys are ordered by the first of them that differs.
pub proof fn tuple_of_five_in_order<A: Key, B: Key, C: Key, D: Key, E: Key>(x: (A, B, C, D, E), y: (A, B, C, D, E))
    ensures
        key_le(x.leaves(), y.leaves()) == if x.0.leaves() != y.0.leaves() {
            key_le(x.0.leaves(), y.0.leaves())
        } else if x.1.leaves() != y.1.leaves() {
            key_le(x.1.leaves(), y.1.leaves())
        } else if x.2.leaves() != y.2.leaves() {
            key_le(x.2.leaves(), y.2.leaves())
        } else if x.3.leaves() != y.3.leaves() {
            key_le(x.3.leaves(), y.3.leaves())
        } else {
            key_le(x.4.leaves(), y.4.leaves())
        },
        x.leaves() == y.leaves() <==> x.0.leaves() == y.0.leaves() && x.1.leaves() == y.1.leaves() && x.2.leaves() == y.2.leaves() && x.3.leaves() == y.3.leaves() && x.4.leaves() == y.4.leaves(),
{
    x.3.leaves_shaped();
    y.3.leaves_shaped();
    lemma_key_add(x.3.leaves(), x.4.leaves(), y.3.leaves(), y.4.leaves());
    x.2.leaves_shaped();
    y.2.leaves_shaped();
    lemma_key_add(x.2.leaves(), x.3.leaves() + x.4.leaves(), y.2.leaves(), y.3.leaves() + y.4.leaves());
    x.1.leaves_shaped();
    y.1.leaves_shaped();
    lemma_key_add(x.1.leaves(), x.2.leaves() + (x.3.leaves() + x.4.leaves()), y.1.leaves(), y.2.leaves() + (y.3.leaves() + y.4.leaves()));
    x.0.leaves_shaped();
    y.0.leaves_shaped();
    lemma_key_add(x.0.leaves(), x.1.leaves() + (x.2.leaves() + (x.3.leaves() + x.4.leaves())), y.0.leaves(), y.1.leaves() + (y.2.leaves() + (y.3.leaves() + y.4.leaves())));
}

/// Six keys are ordered by the first of them that differs.
pub proof fn tuple_of_six_in_order<A: Key, B: Key, C: Key, D: Key, E: Key, F: Key>(x: (A, B, C, D, E, F), y: (A, B, C, D, E, F))
    ensures
        key_le(x.leaves(), y.leaves()) == if x.0.leaves() != y.0.leaves() {
            key_le(x.0.leaves(), y.0.leaves())
        } else if x.1.leaves() != y.1.leaves() {
            key_le(x.1.leaves(), y.1.leaves())
        } else if x.2.leaves() != y.2.leaves() {
            key_le(x.2.leaves(), y.2.leaves())
        } else if x.3.leaves() != y.3.leaves() {
            key_le(x.3.leaves(), y.3.leaves())
        } else if x.4.leaves() != y.4.leaves() {
            key_le(x.4.leaves(), y.4.leaves())
        } else {
            key_le(x.5.leaves(), y.5.leaves())
        },
        x.leaves() == y.leaves() <==> x.0.leaves() == y.0.leaves() && x.1.leaves() == y.1.leaves() && x.2.leaves() == y.2.leaves() && x.3.leaves() == y.3.leaves() && x.4.leaves() == y.4.leaves() && x.5.leaves() == y.5.leaves(),
{
    x.4.leaves_shaped();
    y.4.leaves_shaped();
    lemma_key_add(x.4.leaves(), x.5.leaves(), y.4.leaves(), y.5.leaves());
    x.3.leaves_shaped();
    y.3.leaves_shaped();
    lemma_key_add(x.3.leaves(), x.4.leaves() + x.5.leaves(), y.3.leaves(), y.4.leaves() + y.5.leaves());
    x.2.leaves_shaped();
    y.2.leaves_shaped();
    lemma_key_add(x.2.leaves(), x.3.leaves() + (x.4.leaves() + x.5.leaves()), y.2.leaves(), y.3.leaves() + (y.4.leaves() + y.5.leaves()));
    x.1.leaves_shaped();
    y.1.leaves_shaped();
    lemma_key_add(x.1.leaves(), x.2.leaves() + (x.3.leaves() + (x.4.leaves() + x.5.leaves())), y.1.leaves(), y.2.leaves() + (y.3.leaves() + (y.4.leaves() + y.5.leaves())));
    x.0.leaves_shaped();
    y.0.leaves_shaped();
    lemma_key_add(x.0.leaves(), x.1.leaves() + (x.2.leaves() + (x.3.leaves() + (x.4.leaves() + x.5.leaves()))), y.0.leaves(), y.1.leaves() + (y.2.leaves() + (y.3.leaves() + (y.4.leaves() + y.5.leaves()))));
}

/// Seven keys are ordered by the first of them that differs.
pub proof fn tuple_of_seven_in_order<A: Key, B: Key, C: Key, D: Key, E: Key, F: Key, G: Key>(x: (A, B, C, D, E, F, G), y: (A, B, C, D, E, F, G))
    ensures
        key_le(x.leaves(), y.leaves()) == if x.0.leaves() != y.0.leaves() {
            key_le(x.0.leaves(), y.0.leaves())
        } else if x.1.leaves() != y.1.leaves() {
            key_le(x.1.leaves(), y.1.leaves())
        } else if x.2.leaves() != y.2.leaves() {
            key_le(x.2.leaves(), y.2.leaves())
        } else if x.3.leaves() != y.3.leaves() {
            key_le(x.3.leaves(), y.3.leaves())
        } else if x.4.leaves() != y.4.leaves() {
            key_le(x.4.leaves(), y.4.leaves())
        } else if x.5.leaves() != y.5.leaves() {
            key_le(x.5.leaves(), y.5.leaves())
        } else {
            key_le(x.6.leaves(), y.6.leaves())
        },
        x.leaves() == y.leaves() <==> x.0.leaves() == y.0.leaves() && x.1.leaves() == y.1.leaves() && x.2.leaves() == y.2.leaves() && x.3.leaves() == y.3.leaves() && x.4.leaves() == y.4.leaves() && x.5.leaves() == y.5.leaves() && x.6.leaves() == y.6.leaves(),
{
    x.5.leaves_shaped();
    y.5.leaves_shaped();
    lemma_key_add(x.5.leaves(), x.6.leaves(), y.5.leaves(), y.6.leaves());
    x.4.leaves_shaped();
    y.4.leaves_shaped();
    lemma_key_add(x.4.leaves(), x.5.leaves() + x.6.leaves(), y.4.leaves(), y.5.leaves() + y.6.leaves());
    x.3.leaves_shaped();
    y.3.leaves_shaped();
    lemma_key_add(x.3.leaves(), x.4.leaves() + (x.5.leaves() + x.6.leaves()), y.3.leaves(), y.4.leaves() + (y.5.leaves() + y.6.leaves()));
    x.2.leaves_shaped();
    y.2.leaves_shaped();
    lemma_key_add(x.2.leaves(), x.3.leaves() + (x.4.leaves() + (x.5.leaves() + x.6.leaves())), y.2.leaves(), y.3.leaves() + (y.4.leaves() + (y.5.leaves() + y.6.leaves())));
    x.1.leaves_shaped();
    y.1.leaves_shaped();
    lemma_key_add(x.1.leaves(), x.2.leaves() + (x.3.leaves() + (x.4.leaves() + (x.5.leaves() + x.6.leaves()))), y.1.leaves(), y.2.leaves() + (y.3.leaves() + (y.4.leaves() + (y.5.leaves() + y.6.leaves()))));
    x.0.leaves_shaped();
    y.0.leaves_shaped();
    lemma_key_add(x.0.leaves(), x.1.leaves() + (x.2.leaves() + (x.3.leaves() + (x.4.leaves() + (x.5.leaves() + x.6.leaves())))), y.0.leaves(), y.1.leaves() + (y.2.leaves() + (y.3.leaves() + (y.4.leaves() + (y.5.leaves() + y.6.leaves())))));
}

/// Eight keys are ordered by the first of them that differs.
pub proof fn tuple_of_eight_in_order<A: Key, B: Key, C: Key, D: Key, E: Key, F: Key, G: Key, H: Key>(x: (A, B, C, D, E, F, G, H), y: (A, B, C, D, E, F, G, H))
    ensures
        key_le(x.leaves(), y.leaves()) == if x.0.leaves() != y.0.leaves() {
            key_le(x.0.leaves(), y.0.leaves())
        } else if x.1.leaves() != y.1.leaves() {
            key_le(x.1.leaves(), y.1.leaves())
        } else if x.2.leaves() != y.2.leaves() {
            key_le(x.2.leaves(), y.2.leaves())
        } else if x.3.leaves() != y.3.leaves() {
            key_le(x.3.leaves(), y.3.leaves())
        } else if x.4.leaves() != y.4.leaves() {
            key_le(x.4.leaves(), y.4.leaves())
        } else if x.5.leaves() != y.5.leaves() {
            key_le(x.5.leaves(), y.5.leaves())
        } else if x.6.leaves() != y.6.leaves() {
            key_le(x.6.leaves(), y.6.leaves())
        } else {
            key_le(x.7.leaves(), y.7.leaves())
        },
        x.leaves() == y.leaves() <==> x.0.leaves() == y.0.leaves() && x.1.leaves() == y.1.leaves() && x.2.leaves() == y.2.leaves() && x.3.leaves() == y.3.leaves() && x.4.leaves() == y.4.leaves() && x.5.leaves() == y.5.leaves() && x.6.leaves() == y.6.leaves() && x.7.leaves() == y.7.leaves(),
{
    x.6.leaves_shaped();
    y.6.leaves_shaped();
    lemma_key_add(x.6.leaves(), x.7.leaves(), y.6.leaves(), y.7.leaves());
    x.5.leaves_shaped();
    y.5.leaves_shaped();
    lemma_key_add(x.5.leaves(), x.6.leaves() + x.7.leaves(), y.5.leaves(), y.6.leaves() + y.7.leaves());
    x.4.leaves_shaped();
    y.4.leaves_shaped();
    lemma_key_add(x.4.leaves(), x.5.leaves() + (x.6.leaves() + x.7.leaves()), y.4.leaves(), y.5.leaves() + (y.6.leaves() + y.7.leaves()));
    x.3.leaves_shaped();
    y.3.leaves_shaped();
    lemma_key_add(x.3.leaves(), x.4.leaves() + (x.5.leaves() + (x.6.leaves() + x.7.leaves())), y.3.leaves(), y.4.leaves() + (y.5.leaves() + (y.6.leaves() + y.7.leaves())));
    x.2.leaves_shaped();
    y.2.leaves_shaped();
    lemma_key_add(x.2.leaves(), x.3.leaves() + (x.4.leaves() + (x.5.leaves() + (x.6.leaves() + x.7.leaves()))), y.2.leaves(), y.3.leaves() + (y.4.leaves() + (y.5.leaves() + (y.6.leaves() + y.7.leaves()))));
    x.1.leaves_shaped();
    y.1.leaves_shaped();
    lemma_key_add(x.1.leaves(), x.2.leaves() + (x.3.leaves() + (x.4.leaves() + (x.5.leaves() + (x.6.leaves() + x.7.leaves())))), y.1.leaves(), y.2.leaves() + (y.3.leaves() + (y.4.leaves() + (y.5.leaves() + (y.6.leaves() + y.7.leaves())))));
    x.0.leaves_shaped();
    y.0.leaves_shaped();
    lemma_key_add(x.0.leaves(), x.1.leaves() + (x.2.leaves() + (x.3.leaves() + (x.4.leaves() + (x.5.leaves() + (x.6.leaves() + x.7.leaves()))))), y.0.leaves(), y.1.leaves() + (y.2.leaves() + (y.3.leaves() + (y.4.leaves() + (y.5.leaves() + (y.6.leaves() + y.7.leaves()))))));
}

/// Nine keys are ordered by the first of them that differs.
pub proof fn tuple_of_nine_in_order<A: Key, B: Key, C: Key, D: Key, E: Key, F: Key, G: Key, H: Key, I: Key>(x: (A, B, C, D, E, F, G, H, I), y: (A, B, C, D, E, F, G, H, I))
    ensures
        key_le(x.leaves(), y.leaves()) == if x.0.leaves() != y.0.leaves() {
            key_le(x.0.leaves(), y.0.leaves())
        } else if x.1.leaves() != y.1.leaves() {
            key_le(x.1.leaves(), y.1.leaves())
        } else if x.2.leaves() != y.2.leaves() {
            key_le(x.2.leaves(), y.2.leaves())
        } else if x.3.leaves() != y.3.leaves() {
            key_le(x.3.leaves(), y.3.leaves())
        } else if x.4.leaves() != y.4.leaves() {
            key_le(x.4.leaves(), y.4.leaves())
        } else if x.5.leaves() != y.5.leaves() {
            key_le(x.5.leaves(), y.5.leaves())
        } else if x.6.leaves() != y.6.leaves() {
            key_le(x.6.leaves(), y.6.leaves())
        } else if x.7.leaves() != y.7.leaves() {
            key_le(x.7.leaves(), y.7.leaves())
        } else {
            key_le(x.8.leaves(), y.8.leaves())
        },
        x.leaves() == y.leaves() <==> x.0.leaves() == y.0.leaves() && x.1.leaves() == y.1.leaves() && x.2.leaves() == y.2.leaves() && x.3.leaves() == y.3.leaves() && x.4.leaves() == y.4.leaves() && x.5.leaves() == y.5.leaves() && x.6.leaves() == y.6.leaves() && x.7.leaves() == y.7.leaves() && x.8.leaves() == y.8.leaves(),
{
    x.7.leaves_shaped();
    y.7.leaves_shaped();
    lemma_key_add(x.7.leaves(), x.8.leaves(), y.7.leaves(), y.8.leaves());
    x.6.leaves_shaped();
    y.6.leaves_shaped();
    lemma_key_add(x.6.leaves(), x.7.leaves() + x.8.leaves(), y.6.leaves(), y.7.leaves() + y.8.leaves());
    x.5.leaves_shaped();
    y.5.leaves_shaped();
    lemma_key_add(x.5.leaves(), x.6.leaves() + (x.7.leaves() + x.8.leaves()), y.5.leaves(), y.6.leaves() + (y.7.leaves() + y.8.leaves()));
    x.4.leaves_shaped();
    y.4.leaves_shaped();
    lemma_key_add(x.4.leaves(), x.5.leaves() + (x.6.leaves() + (x.7.leaves() + x.8.leaves())), y.4.leaves(), y.5.leaves() + (y.6.leaves() + (y.7.leaves() + y.8.leaves())));
    x.3.leaves_shaped();
    y.3.leaves_shaped();
    lemma_key_add(x.3.leaves(), x.4.leaves() + (x.5.leaves() + (x.6.leaves() + (x.7.leaves() + x.8.leaves()))), y.3.leaves(), y.4.leaves() + (y.5.leaves() + (y.6.leaves() + (y.7.leaves() + y.8.leaves()))));
    x.2.leaves_shaped();
    y.2.leaves_shaped();
    lemma_key_add(x.2.leaves(), x.3.leaves() + (x.4.leaves() + (x.5.leaves() + (x.6.leaves() + (x.7.leaves() + x.8.leaves())))), y.2.leaves(), y.3.leaves() + (y.4.leaves() + (y.5.leaves() + (y.6.leaves() + (y.7.leaves() + y.8.leaves())))));
    x.1.leaves_shaped();
    y.1.leaves_shaped();
    lemma_key_add(x.1.leaves(), x.2.leaves() + (x.3.leaves() + (x.4.leaves() + (x.5.leaves() + (x.6.leaves() + (x.7.leaves() + x.8.leaves()))))), y.1.leaves(), y.2.leaves() + (y.3.leaves() + (y.4.leaves() + (y.5.leaves() + (y.6.leaves() + (y.7.leaves() + y.8.leaves()))))));
    x.0.leaves_shaped();
    y.0.leaves_shaped();
    lemma_key_add(x.0.leaves(), x.1.leaves() + (x.2.leaves() + (x.3.leaves() + (x.4.leaves() + (x.5.leaves() + (x.6.leaves() + (x.7.leaves() + x.8.leaves())))))), y.0.leaves(), y.1.leaves() + (y.2.leaves() + (y.3.leaves() + (y.4.leaves() + (y.5.leaves() + (y.6.leaves() + (y.7.leaves() + y.8.leaves())))))));
}

/// Ten keys are ordered by the first of them that differs.
pub proof fn tuple_of_ten_in_order<A: Key, B: Key, C: Key, D: Key, E: Key, F: Key, G: Key, H: Key, I: Key, J: Key>(x: (A, B, C, D, E, F, G, H, I, J), y: (A, B, C, D, E, F, G, H, I, J))
    ensures
        key_le(x.leaves(), y.leaves()) == if x.0.leaves() != y.0.leaves() {
            key_le(x.0.leaves(), y.0.leaves())
        } else if x.1.leaves() != y.1.leaves() {
            key_le(x.1.leaves(), y.1.leaves())
        } else if x.2.leaves() != y.2.leaves() {
            key_le(x.2.leaves(), y.2.leaves())
        } else if x.3.leaves() != y.3.leaves() {
            key_le(x.3.leaves(), y.3.leaves())
        } else if x.4.leaves() != y.4.leaves() {
            key_le(x.4.leaves(), y.4.leaves())
        } else if x.5.leaves() != y.5.leaves() {
            key_le(x.5.leaves(), y.5.leaves())
        } else if x.6.leaves() != y.6.leaves() {
            key_le(x.6.leaves(), y.6.leaves())
        } else if x.7.leaves() != y.7.leaves() {
            key_le(x.7.leaves(), y.7.leaves())
        } else if x.8.leaves() != y.8.leaves() {
            key_le(x.8.leaves(), y.8.leaves())
        } else {
            key_le(x.9.leaves(), y.9.leaves())
        },
        x.leaves() == y.leaves() <==> x.0.leaves() == y.0.leaves() && x.1.leaves() == y.1.leaves() && x.2.leaves() == y.2.leaves() && x.3.leaves() == y.3.leaves() && x.4.leaves() == y.4.leaves() && x.5.leaves() == y.5.leaves() && x.6.leaves() == y.6.leaves() && x.7.leaves() == y.7.leaves() && x.8.leaves() == y.8.leaves() && x.9.leaves() == y.9.leaves(),
{
    x.8.leaves_shaped();
    y.8.leaves_shaped();
    lemma_key_add(x.8.leaves(), x.9.leaves(), y.8.leaves(), y.9.leaves());
    x.7.leaves_shaped();
    y.7.leaves_shaped();
    lemma_key_add(x.7.leaves(), x.8.leaves() + x.9.leaves(), y.7.leaves(), y.8.leaves() + y.9.leaves());
    x.6.leaves_shaped();
    y.6.leaves_shaped();
    lemma_key_add(x.6.leaves(), x.7.leaves() + (x.8.leaves() + x.9.leaves()), y.6.leaves(), y.7.leaves() + (y.8.leaves() + y.9.leaves()));
    x.5.leaves_shaped();
    y.5.leaves_shaped();
    lemma_key_add(x.5.leaves(), x.6.leaves() + (x.7.leaves() + (x.8.leaves() + x.9.leaves())), y.5.leaves(), y.6.leaves() + (y.7.leaves() + (y.8.leaves() + y.9.leaves())));
    x.4.leaves_shaped();
    y.4.leaves_shaped();
    lemma_key_add(x.4.leaves(), x.5.leaves() + (x.6.leaves() + (x.7.leaves() + (x.8.leaves() + x.9.leaves()))), y.4.leaves(), y.5.leaves() + (y.6.leaves() + (y.7.leaves() + (y.8.leaves() + y.9.leaves()))));
    x.3.leaves_shaped();
    y.3.leaves_shaped();
    lemma_key_add(x.3.leaves(), x.4.leaves() + (x.5.leaves() + (x.6.leaves() + (x.7.leaves() + (x.8.leaves() + x.9.leaves())))), y.3.leaves(), y.4.leaves() + (y.5.leaves() + (y.6.leaves() + (y.7.leaves() + (y.8.leaves() + y.9.leaves())))));
    x.2.leaves_shaped();
    y.2.leaves_shaped();
    lemma_key_add(x.2.leaves(), x.3.leaves() + (x.4.leaves() + (x.5.leaves() + (x.6.leaves() + (x.7.leaves() + (x.8.leaves() + x.9.leaves()))))), y.2.leaves(), y.3.leaves() + (y.4.leaves() + (y.5.leaves() + (y.6.leaves() + (y.7.leaves() + (y.8.leaves() + y.9.leaves()))))));
    x.1.leaves_shaped();
    y.1.leaves_shaped();
    lemma_key_add(x.1.leaves(), x.2.leaves() + (x.3.leaves() + (x.4.leaves() + (x.5.leaves() + (x.6.leaves() + (x.7.leaves() + (x.8.leaves() + x.9.leaves())))))), y.1.leaves(), y.2.leaves() + (y.3.leaves() + (y.4.leaves() + (y.5.leaves() + (y.6.leaves() + (y.7.leaves() + (y.8.leaves() + y.9.leaves())))))));
    x.0.leaves_shaped();
    y.0.leaves_shaped();
    lemma_key_add(x.0.leaves(), x.1.leaves() + (x.2.leaves() + (x.3.leaves() + (x.4.leaves() + (x.5.leaves() + (x.6.leaves() + (x.7.leaves() + (x.8.leaves() + x.9.leaves()))))))), y.0.leaves(), y.1.leaves() + (y.2.leaves() + (y.3.leaves() + (y.4.leaves() + (y.5.leaves() + (y.6.leaves() + (y.7.leaves() + (y.8.leaves() + y.9.leaves()))))))));
}

/// Eleven keys are ordered by the first of them that differs.
pub proof fn tuple_of_eleven_in_order<A: Key, B: Key, C: Key, D: Key, E: Key, F: Key, G: Key, H: Key, I: Key, J: Key, K: Key>(x: (A, B, C, D, E, F, G, H, I, J, K), y: (A, B, C, D, E, F, G, H, I, J, K))
    ensures
        key_le(x.leaves(), y.leaves()) == if x.0.leaves() != y.0.leaves() {
            key_le(x.0.leaves(), y.0.leaves())
        } else if x.1.leaves() != y.1.leaves() {
            key_le(x.1.leaves(), y.1.leaves())
        } else if x.2.leaves() != y.2.leaves() {
            key_le(x.2.leaves(), y.2.leaves())
        } else if x.3.leaves() != y.3.leaves() {
            key_le(x.3.leaves(), y.3.leaves())
        } else if x.4.leaves() != y.4.leaves() {
            key_le(x.4.leaves(), y.4.leaves())
        } else if x.5.leaves() != y.5.leaves() {
            key_le(x.5.leaves(), y.5.leaves())
        } else if x.6.leaves() != y.6.leaves() {
            key_le(x.6.leaves(), y.6.leaves())
        } else if x.7.leaves() != y.7.leaves() {
            key_le(x.7.leaves(), y.7.leaves())
        } else if x.8.leaves() != y.8.leaves() {
            key_le(x.8.leaves(), y.8.leaves())
        } else if x.9.leaves() != y.9.leaves() {
            key_le(x.9.leaves(), y.9.leaves())
        } else {
            key_le(x.10.leaves(), y.10.leaves())
        },
        x.leaves() == y.leaves() <==> x.0.leaves() == y.0.leaves() && x.1.leaves() == y.1.leaves() && x.2.leaves() == y.2.leaves() && x.3.leaves() == y.3.leaves() && x.4.leaves() == y.4.leaves() && x.5.leaves() == y.5.leaves() && x.6.leaves() == y.6.leaves() && x.7.leaves() == y.7.leaves() && x.8.leaves() == y.8.leaves() && x.9.leaves() == y.9.leaves() && x.10.leaves() == y.10.leaves(),
{
    x.9.leaves_shaped();
    y.9.leaves_shaped();
    lemma_key_add(x.9.leaves(), x.10.leaves(), y.9.leaves(), y.10.leaves());
    x.8.leaves_shaped();
    y.8.leaves_shaped();
    lemma_key_add(x.8.leaves(), x.9.leaves() + x.10.leaves(), y.8.leaves(), y.9.leaves() + y.10.leaves());
    x.7.leaves_shaped();
    y.7.leaves_shaped();
    lemma_key_add(x.7.leaves(), x.8.leaves() + (x.9.leaves() + x.10.leaves()), y.7.leaves(), y.8.leaves() + (y.9.leaves() + y.10.leaves()));
    x.6.leaves_shaped();
    y.6.leaves_shaped();
    lemma_key_add(x.6.leaves(), x.7.leaves() + (x.8.leaves() + (x.9.leaves() + x.10.leaves())), y.6.leaves(), y.7.leaves() + (y.8.leaves() + (y.9.leaves() + y.10.leaves())));
    x.5.leaves_shaped();
    y.5.leaves_shaped();
    lemma_key_add(x.5.leaves(), x.6.leaves() + (x.7.leaves() + (x.8.leaves() + (x.9.leaves() + x.10.leaves()))), y.5.leaves(), y.6.leaves() + (y.7.leaves() + (y.8.leaves() + (y.9.leaves() + y.10.leaves()))));
    x.4.leaves_shaped();
    y.4.leaves_shaped();
    lemma_key_add(x.4.leaves(), x.5.leaves() + (x.6.leaves() + (x.7.leaves() + (x.8.leaves() + (x.9.leaves() + x.10.leaves())))), y.4.leaves(), y.5.leaves() + (y.6.leaves() + (y.7.leaves() + (y.8.leaves() + (y.9.leaves() + y.10.leaves())))));
    x.3.leaves_shaped();
    y.3.leaves_shaped();
    lemma_key_add(x.3.leaves(), x.4.leaves() + (x.5.leaves() + (x.6.leaves() + (x.7.leaves() + (x.8.leaves() + (x.9.leaves() + x.10.leaves()))))), y.3.leaves(), y.4.leaves() + (y.5.leaves() + (y.6.leaves() + (y.7.leaves() + (y.8.leaves() + (y.9.leaves() + y.10.leaves()))))));
    x.2.leaves_shaped();
    y.2.leaves_shaped();
    lemma_key_add(x.2.leaves(), x.3.leaves() + (x.4.leaves() + (x.5.leaves() + (x.6.leaves() + (x.7.leaves() + (x.8.leaves() + (x.9.leaves() + x.10.leaves())))))), y.2.leaves(), y.3.leaves() + (y.4.leaves() + (y.5.leaves() + (y.6.leaves() + (y.7.leaves() + (y.8.leaves() + (y.9.leaves() + y.10.leaves())))))));
    x.1.leaves_shaped();
    y.1.leaves_shaped();
    lemma_key_add(x.1.leaves(), x.2.leaves() + (x.3.leaves() + (x.4.leaves() + (x.5.leaves() + (x.6.leaves() + (x.7.leaves() + (x.8.leaves() + (x.9.leaves() + x.10.leaves()))))))), y.1.leaves(), y.2.leaves() + (y.3.leaves() + (y.4.leaves() + (y.5.leaves() + (y.6.leaves() + (y.7.leaves() + (y.8.leaves() + (y.9.leaves() + y.10.leaves()))))))));
    x.0.leaves_shaped();
    y.0.leaves_shaped();
    lemma_key_add(x.0.leaves(), x.1.leaves() + (x.2.leaves() + (x.3.leaves() + (x.4.leaves() + (x.5.leaves() + (x.6.leaves() + (x.7.leaves() + (x.8.leaves() + (x.9.leaves() + x.10.leaves())))))))), y.0.leaves(), y.1.leaves() + (y.2.leaves() + (y.3.leaves() + (y.4.leaves() + (y.5.leaves() + (y.6.leaves() + (y.7.leaves() + (y.8.leaves() + (y.9.leaves() + y.10.leaves())))))))));
}

/// Twelve keys are ordered by the first of them that differs.
pub proof fn tuple_of_twelve_in_order<A: Key, B: Key, C: Key, D: Key, E: Key, F: Key, G: Key, H: Key, I: Key, J: Key, K: Key, L: Key>(x: (A, B, C, D, E, F, G, H, I, J, K, L), y: (A, B, C, D, E, F, G, H, I, J, K, L))
    ensures
        key_le(x.leaves(), y.leaves()) == if x.0.leaves() != y.0.leaves() {
            key_le(x.0.leaves(), y.0.leaves())
        } else if x.1.leaves() != y.1.leaves() {
            key_le(x.1.leaves(), y.1.leaves())
        } else if x.2.leaves() != y.2.leaves() {
            key_le(x.2.leaves(), y.2.leaves())
        } else if x.3.leaves() != y.3.leaves() {
            key_le(x.3.leaves(), y.3.leaves())
        } else if x.4.leaves() != y.4.leaves() {
            key_le(x.4.leaves(), y.4.leaves())
        } else if x.5.leaves() != y.5.leaves() {
            key_le(x.5.leaves(), y.5.leaves())
        } else if x.6.leaves() != y.6.leaves() {
            key_le(x.6.leaves(), y.6.leaves())
        } else if x.7.leaves() != y.7.leaves() {
            key_le(x.7.leaves(), y.7.leaves())
        } else if x.8.leaves() != y.8.leaves() {
            key_le(x.8.leaves(), y.8.leaves())
        } else if x.9.leaves() != y.9.leaves() {
            key_le(x.9.leaves(), y.9.leaves())
        } else if x.10.leaves() != y.10.leaves() {
            key_le(x.10.leaves(), y.10.leaves())
        } else {
            key_le(x.11.leaves(), y.11.leaves())
        },
        x.leaves() == y.leaves() <==> x.0.leaves() == y.0.leaves() && x.1.leaves() == y.1.leaves() && x.2.leaves() == y.2.leaves() && x.3.leaves() == y.3.leaves() && x.4.leaves() == y.4.leaves() && x.5.leaves() == y.5.leaves() && x.6.leaves() == y.6.leaves() && x.7.leaves() == y.7.leaves() && x.8.leaves() == y.8.leaves() && x.9.leaves() == y.9.leaves() && x.10.leaves() == y.10.leaves() && x.11.leaves() == y.11.leaves(),
{
    x.10.leaves_shaped();
    y.10.leaves_shaped();
    lemma_key_add(x.10.leaves(), x.11.leaves(), y.10.leaves(), y.11.leaves());
    x.9.leaves_shaped();
    y.9.leaves_shaped();
    lemma_key_add(x.9.leaves(), x.10.leaves() + x.11.leaves(), y.9.leaves(), y.10.leaves() + y.11.leaves());
    x.8.leaves_shaped();
    y.8.leaves_shaped();
    lemma_key_add(x.8.leaves(), x.9.leaves() + (x.10.leaves() + x.11.leaves()), y.8.leaves(), y.9.leaves() + (y.10.leaves() + y.11.leaves()));
    x.7.leaves_shaped();
    y.7.leaves_shaped();
    lemma_key_add(x.7.leaves(), x.8.leaves() + (x.9.leaves() + (x.10.leaves() + x.11.leaves())), y.7.leaves(), y.8.leaves() + (y.9.leaves() + (y.10.leaves() + y.11.leaves())));
    x.6.leaves_shaped();
    y.6.leaves_shaped();
    lemma_key_add(x.6.leaves(), x.7.leaves() + (x.8.leaves() + (x.9.leaves() + (x.10.leaves() + x.11.leaves()))), y.6.leaves(), y.7.leaves() + (y.8.leaves() + (y.9.leaves() + (y.10.leaves() + y.11.leaves()))));
    x.5.leaves_shaped();
    y.5.leaves_shaped();
    lemma_key_add(x.5.leaves(), x.6.leaves() + (x.7.leaves() + (x.8.leaves() + (x.9.leaves() + (x.10.leaves() + x.11.leaves())))), y.5.leaves(), y.6.leaves() + (y.7.leaves() + (y.8.leaves() + (y.9.leaves() + (y.10.leaves() + y.11.leaves())))));
    x.4.leaves_shaped();
    y.4.leaves_shaped();
    lemma_key_add(x.4.leaves(), x.5.leaves() + (x.6.leaves() + (x.7.leaves() + (x.8.leaves() + (x.9.leaves() + (x.10.leaves() + x.11.leaves()))))), y.4.leaves(), y.5.leaves() + (y.6.leaves() + (y.7.leaves() + (y.8.leaves() + (y.9.leaves() + (y.10.leaves() + y.11.leaves()))))));
    x.3.leaves_shaped();
    y.3.leaves_shaped();
    lemma_key_add(x.3.leaves(), x.4.leaves() + (x.5.leaves() + (x.6.leaves() + (x.7.leaves() + (x.8.leaves() + (x.9.leaves() + (x.10.leaves() + x.11.leaves())))))), y.3.leaves(), y.4.leaves() + (y.5.leaves() + (y.6.leaves() + (y.7.leaves() + (y.8.leaves() + (y.9.leaves() + (y.10.leaves() + y.11.leaves())))))));
    x.2.leaves_shaped();
    y.2.leaves_shaped();
    lemma_key_add(x.2.leaves(), x.3.leaves() + (x.4.leaves() + (x.5.leaves() + (x.6.leaves() + (x.7.leaves() + (x.8.leaves() + (x.9.leaves() + (x.10.leaves() + x.11.leaves()))))))), y.2.leaves(), y.3.leaves() + (y.4.leaves() + (y.5.leaves() + (y.6.leaves() + (y.7.leaves() + (y.8.leaves() + (y.9.leaves() + (y.10.leaves() + y.11.leaves()))))))));
    x.1.leaves_shaped();
    y.1.leaves_shaped();
    lemma_key_add(x.1.leaves(), x.2.leaves() + (x.3.leaves() + (x.4.leaves() + (x.5.leaves() + (x.6.leaves() + (x.7.leaves() + (x.8.leaves() + (x.9.leaves() + (x.10.leaves() + x.11.leaves())))))))), y.1.leaves(), y.2.leaves() + (y.3.leaves() + (y.4.leaves() + (y.5.leaves() + (y.6.leaves() + (y.7.leaves() + (y.8.leaves() + (y.9.leaves() + (y.10.leaves() + y.11.leaves())))))))));
    x.0.leaves_shaped();
    y.0.leaves_shaped();
    lemma_key_add(x.0.leaves(), x.1.leaves() + (x.2.leaves() + (x.3.leaves() + (x.4.leaves() + (x.5.leaves() + (x.6.leaves() + (x.7.leaves() + (x.8.leaves() + (x.9.leaves() + (x.10.leaves() + x.11.leaves()))))))))), y.0.leaves(), y.1.leaves() + (y.2.leaves() + (y.3.leaves() + (y.4.leaves() + (y.5.leaves() + (y.6.leaves() + (y.7.leaves() + (y.8.leaves() + (y.9.leaves() + (y.10.leaves() + y.11.leaves()))))))))));
}

/// An array of keys is ordered by the first of them that differs.
pub proof fn array_in_order<K: Key, const N: usize>(x: [K; N], y: [K; N])
    ensures
        forall|i: int|
            #![trigger x@[i]]
            0 <= i < N && x@[i].leaves() != y@[i].leaves() && (forall|j: int| 0 <= j < i ==> (#[trigger] x@[j]).leaves() == y@[j].leaves()) ==> key_le(x.leaves(), y.leaves()) == key_le(
                x@[i].leaves(),
                y@[i].leaves(),
            ) && x.leaves() != y.leaves(),
        (forall|j: int| 0 <= j < N ==> (#[trigger] x@[j]).leaves() == y@[j].leaves()) ==> x.leaves() == y.leaves() && key_le(x.leaves(), y.leaves()),
{
    assert forall|i: int|
        #![trigger x@[i]]
        0 <= i < N && x@[i].leaves() != y@[i].leaves() && (forall|j: int| 0 <= j < i ==> (#[trigger] x@[j]).leaves() == y@[j].leaves()) implies key_le(x.leaves(), y.leaves()) == key_le(
        x@[i].leaves(),
        y@[i].leaves(),
    ) && x.leaves() != y.leaves() by {
        lemma_arrays_lengths(&x, &y, i as usize);
    }
    if forall|j: int| 0 <= j < N ==> (#[trigger] x@[j]).leaves() == y@[j].leaves() {
        lemma_arrays_lengths(&x, &y, N);
        key_order_total(x.leaves(), y.leaves());
    }
}

/// A key behind a reference is ordered as the key.
pub proof fn reference_in_order<K: Key + ?Sized>(x: &K, y: &K)
    ensures
        key_le(<&K as Key>::leaves(&x), <&K as Key>::leaves(&y)) == key_le((*x).leaves(), (*y).leaves()),
        <&K as Key>::leaves(&x) == <&K as Key>::leaves(&y) <==> (*x).leaves() == (*y).leaves(),
{
}

/// A key in a box is ordered as the key.
pub proof fn boxed_in_order<K: Key + ?Sized>(x: Box<K>, y: Box<K>)
    ensures
        key_le(x.leaves(), y.leaves()) == key_le((*x).leaves(), (*y).leaves()),
        x.leaves() == y.leaves() <==> (*x).leaves() == (*y).leaves(),
{
}

/// A key that is shared in one thread is ordered as the key.
pub proof fn shared_in_order<K: Key + ?Sized>(x: Rc<K>, y: Rc<K>)
    ensures
        key_le(x.leaves(), y.leaves()) == key_le((*x).leaves(), (*y).leaves()),
        x.leaves() == y.leaves() <==> (*x).leaves() == (*y).leaves(),
{
}

/// A key that is shared between threads is ordered as the key.
pub proof fn shared_between_threads_in_order<K: Key + ?Sized>(x: Arc<K>, y: Arc<K>)
    ensures
        key_le(x.leaves(), y.leaves()) == key_le((*x).leaves(), (*y).leaves()),
        x.leaves() == y.leaves() <==> (*x).leaves() == (*y).leaves(),
{
}

/// A key behind a reference that may be written through is ordered as the key.
pub proof fn writable_references_in_order<K: Key + ?Sized>()
    ensures
        forall|x: &mut K, y: &mut K|
            key_le(#[trigger] <&mut K as Key>::leaves(&x), #[trigger] <&mut K as Key>::leaves(&y)) == key_le((*x).leaves(), (*y).leaves()) && (<&mut K as Key>::leaves(&x) == <&mut K as Key>::leaves(&y)
                <==> (*x).leaves() == (*y).leaves()),
{
}

/// A reversed key is ordered the other way round, and two reversed keys are equal
/// where the keys are: reversal keeps a sort stable.
pub proof fn desc_in_order<K: Key>(x: K, y: K)
    ensures
        key_le(Desc(x).leaves(), Desc(y).leaves()) == key_le(y.leaves(), x.leaves()),
        Desc(x).leaves() == Desc(y).leaves() <==> x.leaves() == y.leaves(),
{
    x.leaves_shaped();
    y.leaves_shaped();
    reversed_order(x.leaves(), y.leaves(), K::parts());
}

/// A sort by one key after a sort by another is a sort by the pair of the second
/// and the first.
pub proof fn two_sorts_are_one<T>(f: spec_fn(T) -> Seq<LeafModel>, g: spec_fn(T) -> Seq<LeafModel>, parts: Seq<Part>, a: Seq<T>, b: Seq<T>, c: Seq<T>)
    requires
        forall|x: T| shaped(#[trigger] f(x), parts),
        stable_sort_of(by_leaves(g), a, b),
        stable_sort_of(by_leaves(f), b, c),
    ensures
        stable_sort_of(by_leaves(|x: T| f(x) + g(x)), a, c),
{
    lemma_by_leaves_total(f);
    lemma_by_leaves_total(g);
    lemma_stable_sort_then(by_leaves(f), by_leaves(g), a, b, c);
    let both = by_leaves(|x: T| f(x) + g(x));
    assert forall|x: T, y: T| both(x, y) == #[trigger] then_by(by_leaves(f), by_leaves(g))(x, y) by {
        assert(shaped(f(x), parts) && shaped(f(y), parts));
        lemma_key_add(f(x), g(x), f(y), g(y));
        key_order_total(f(x), f(y));
    }
    assert(both =~= then_by(by_leaves(f), by_leaves(g)));
}

/// A sort of what is sorted changes nothing.
pub proof fn sorting_twice<T>(f: spec_fn(T) -> Seq<LeafModel>, a: Seq<T>, b: Seq<T>, c: Seq<T>)
    requires
        stable_sort_of(by_leaves(f), a, b),
        stable_sort_of(by_leaves(f), b, c),
    ensures
        c == b,
{
    lemma_by_leaves_total(f);
    sorted_is_its_own_stable_sort(by_leaves(f), b, c);
}

/// A sort by a key and a sort by a comparator give the same result where the
/// comparator follows the order of the keys.
pub proof fn key_and_comparator_agree<T>(f: spec_fn(T) -> Seq<LeafModel>, le: spec_fn(T, T) -> bool, a: Seq<T>, b: Seq<T>, c: Seq<T>)
    requires
        forall|x: T, y: T| #[trigger] le(x, y) == key_le(f(x), f(y)),
        stable_sort_of(by_leaves(f), a, b),
        stable_sort_of(le, a, c),
    ensures
        b == c,
{
    lemma_by_leaves_total(f);
    assert(le =~= by_leaves(f));
    stable_sort_is_unique(le, a, b, c);
}

// ---- leaves --------------------------------------------------------------------------------------

/// A number, a character, a truth value and a text are one leaf each, and a number of
/// 128 bits is two.
pub proof fn plain_keys_are_single_leaves()
    ensures
        <u8 as Key>::parts().len() == 1,
        <u16 as Key>::parts().len() == 1,
        <u32 as Key>::parts().len() == 1,
        <u64 as Key>::parts().len() == 1,
        <usize as Key>::parts().len() == 1,
        <i8 as Key>::parts().len() == 1,
        <i16 as Key>::parts().len() == 1,
        <i32 as Key>::parts().len() == 1,
        <i64 as Key>::parts().len() == 1,
        <isize as Key>::parts().len() == 1,
        <bool as Key>::parts().len() == 1,
        <char as Key>::parts().len() == 1,
        <F32Bits as Key>::parts().len() == 1,
        <F64Bits as Key>::parts().len() == 1,
        <str as Key>::parts().len() == 1,
        <String as Key>::parts().len() == 1,
        <[u8] as Key>::parts().len() == 1,
        <Vec<u8> as Key>::parts().len() == 1,
        <Cow<'static, str> as Key>::parts().len() == 1,
        <u128 as Key>::parts().len() == 2,
        <i128 as Key>::parts().len() == 2,
{
}

/// A reference, a box and a descending key have as many leaves as what they hold, and an
/// array as many times those of an element as it has elements.
pub proof fn wrapped_keys_keep_their_leaves<K: Key, const N: usize>()
    ensures
        <&'static K as Key>::parts() == K::parts(),
        <&'static mut K as Key>::parts() == K::parts(),
        <Box<K> as Key>::parts() == K::parts(),
        <Rc<K> as Key>::parts() == K::parts(),
        <Arc<K> as Key>::parts() == K::parts(),
        <Desc<K> as Key>::parts().len() == K::parts().len(),
        <[K; N] as Key>::parts().len() == K::parts().len() * N,
{
    lemma_repeated_len(K::parts(), N as nat);
}

/// A tuple has the leaves of its members.
pub proof fn tuples_have_the_leaves_of_their_members<A: Key, B: Key, C: Key, D: Key, E: Key, F: Key, G: Key, H: Key, I: Key, J: Key, K: Key, L: Key>()
    ensures
        <(A,) as Key>::parts().len() == A::parts().len(),
        <(A, B) as Key>::parts().len() == A::parts().len() + B::parts().len(),
        <(A, B, C) as Key>::parts().len() == A::parts().len() + B::parts().len() + C::parts().len(),
        <(A, B, C, D) as Key>::parts().len() == A::parts().len() + B::parts().len() + C::parts().len() + D::parts().len(),
        <(A, B, C, D, E) as Key>::parts().len() == A::parts().len() + B::parts().len() + C::parts().len() + D::parts().len() + E::parts().len(),
        <(A, B, C, D, E, F) as Key>::parts().len() == A::parts().len() + B::parts().len() + C::parts().len() + D::parts().len() + E::parts().len() + F::parts().len(),
        <(A, B, C, D, E, F, G) as Key>::parts().len() == A::parts().len() + B::parts().len() + C::parts().len() + D::parts().len() + E::parts().len() + F::parts().len() + G::parts().len(),
        <(A, B, C, D, E, F, G, H) as Key>::parts().len() == A::parts().len() + B::parts().len() + C::parts().len() + D::parts().len() + E::parts().len() + F::parts().len() + G::parts().len() + H::parts().len(),
        <(A, B, C, D, E, F, G, H, I) as Key>::parts().len() == A::parts().len() + B::parts().len() + C::parts().len() + D::parts().len() + E::parts().len() + F::parts().len() + G::parts().len() + H::parts().len() + I::parts().len(),
        <(A, B, C, D, E, F, G, H, I, J) as Key>::parts().len() == A::parts().len() + B::parts().len() + C::parts().len() + D::parts().len() + E::parts().len() + F::parts().len() + G::parts().len() + H::parts().len() + I::parts().len() + J::parts().len(),
        <(A, B, C, D, E, F, G, H, I, J, K) as Key>::parts().len() == A::parts().len() + B::parts().len() + C::parts().len() + D::parts().len() + E::parts().len() + F::parts().len() + G::parts().len() + H::parts().len() + I::parts().len() + J::parts().len() + K::parts().len(),
        <(A, B, C, D, E, F, G, H, I, J, K, L) as Key>::parts().len() == A::parts().len() + B::parts().len() + C::parts().len() + D::parts().len() + E::parts().len() + F::parts().len() + G::parts().len() + H::parts().len() + I::parts().len() + J::parts().len() + K::parts().len() + L::parts().len(),
{
}

} // verus!
