//! Keys of one fixed leaf, or two: integers, `bool`, `char`, and the bit
//! patterns of floating point numbers.
use crate::key::{key_le_from, key_ordering, radix_fits, shaped, turned, Key, LeafModel, PartSink};
use crate::key::slots::{capped, kinds_of, SlotPair, SlotTree};
use crate::shape::{fixed_part, MAX_PARTS, Part, Shape};
use core::cmp::Ordering;
use vstd::arithmetic::power2::{lemma2_to64, lemma2_to64_rest, lemma_pow2_pos};
use vstd::prelude::*;

verus! {

/// One fixed leaf, ascending.
pub open spec fn one_fixed(bits: u8, radix: u64) -> Seq<LeafModel> {
    seq![LeafModel::Fixed { bits, desc: false, radix }]
}

/// Keys of one fixed leaf are ordered by its value.
pub proof fn lemma_one_fixed(bits: u8, x: u64, y: u64)
    ensures
        key_ordering(one_fixed(bits, x), one_fixed(bits, y)) == if x < y {
            Ordering::Less
        } else if x == y {
            Ordering::Equal
        } else {
            Ordering::Greater
        },
{
    reveal_with_fuel(key_le_from, 2);
    if x != y {
        assert(one_fixed(bits, x)[0] != one_fixed(bits, y)[0]);
    }
}

proof fn lemma_fixed_shaped(bits: u8, radix: u64)
    requires
        radix_fits(radix, bits),
    ensures
        shaped(one_fixed(bits, radix), seq![fixed_part(bits)]),
        capped(kinds_of(seq![fixed_part(bits)])) == seq![false],
{
    assert(kinds_of(seq![fixed_part(bits)]) =~= seq![false]);
}

/// Hands one fixed leaf to a sink.
fn write_fixed<'a, S: PartSink<'a>>(radix: u64, bits: u8, flip: bool, sink: &mut S)
    requires
        old(sink).ready(),
        radix_fits(radix, bits),
    ensures
        final(sink).ready(),
        final(sink).log() == old(sink).log() + turned(one_fixed(bits, radix), flip),
{
    sink.fixed(radix, bits, flip);
    assert(turned(one_fixed(bits, radix), flip) =~= seq![LeafModel::Fixed { bits, desc: flip, radix }]);
    assert(sink.log() =~= old(sink).log() + turned(one_fixed(bits, radix), flip));
}

/// Compares two radix values.
fn order_radix(x: u64, y: u64) -> (r: Ordering)
    ensures
        r == if x < y {
            Ordering::Less
        } else if x == y {
            Ordering::Equal
        } else {
            Ordering::Greater
        },
{
    if x < y {
        Ordering::Less
    } else if x == y {
        Ordering::Equal
    } else {
        Ordering::Greater
    }
}

/// The radix value of `u8`.
pub open spec fn u8_radix(x: u8) -> u64 {
    x as u64
}

impl Key for u8 {
    type Slots<'a> = u64;

    open spec fn parts() -> Seq<Part> {
        seq![fixed_part(8)]
    }

    open spec fn leaves(&self) -> Seq<LeafModel> {
        one_fixed(8, u8_radix(*self))
    }

    proof fn leaves_shaped(&self) {
        assert(self.leaves().len() == Self::parts().len());
        lemma2_to64();
        lemma2_to64_rest();
        lemma_fixed_shaped(8, u8_radix(*self));
    }

    proof fn slots_shaped<'a>() {
        assert(<u64 as SlotTree<'a>>::kinds() =~= capped(kinds_of(Self::parts())));
        lemma2_to64();
        lemma_pow2_pos(8);
        lemma_fixed_shaped(8, 0);
    }

    fn shape() -> (r: Shape) {
        Shape::fixed(8)
    }

    fn leaf_count() -> (r: usize) {
        1
    }

    fn descending(p: usize) -> (r: bool) {
        false
    }

    fn write_parts<'a, S: PartSink<'a>>(&'a self, flip: bool, sink: &mut S) {
        proof {
            lemma2_to64();
            lemma2_to64_rest();
        }
        let radix: u64 = *self as u64;
        write_fixed(radix, 8, flip, sink);
    }

    fn cmp_key(&self, other: &Self) -> (r: Ordering) {
        proof {
            lemma_one_fixed(8, u8_radix(*self), u8_radix(*other));
        }
        if *self < *other {
            Ordering::Less
        } else if *self == *other {
            Ordering::Equal
        } else {
            Ordering::Greater
        }
    }

    fn spare(&self) -> (r: u32) {
        0
    }

    open spec fn exact_fixed() -> bool {
        true
    }

    fn from_radix(radix: u64, spare: u32) -> (r: Option<Self>)
        ensures
            r == if radix <= 0xFF {
                Some(radix as u8)
            } else {
                None
            },
    {
        if radix <= 0xFF {
            proof {
                assert forall|x: u8| (#[trigger] x.leaves()).len() == 1 && x.leaves()[0] == (LeafModel::Fixed { bits: 8, desc: false, radix }) implies u8_radix(x) == radix by {}
            }
            Some(radix as u8)
        } else {
            None
        }
    }
}

/// The radix value of `u16`.
pub open spec fn u16_radix(x: u16) -> u64 {
    x as u64
}

impl Key for u16 {
    type Slots<'a> = u64;

    open spec fn parts() -> Seq<Part> {
        seq![fixed_part(16)]
    }

    open spec fn leaves(&self) -> Seq<LeafModel> {
        one_fixed(16, u16_radix(*self))
    }

    proof fn leaves_shaped(&self) {
        assert(self.leaves().len() == Self::parts().len());
        lemma2_to64();
        lemma2_to64_rest();
        lemma_fixed_shaped(16, u16_radix(*self));
    }

    proof fn slots_shaped<'a>() {
        assert(<u64 as SlotTree<'a>>::kinds() =~= capped(kinds_of(Self::parts())));
        lemma2_to64();
        lemma_pow2_pos(16);
        lemma_fixed_shaped(16, 0);
    }

    fn shape() -> (r: Shape) {
        Shape::fixed(16)
    }

    fn leaf_count() -> (r: usize) {
        1
    }

    fn descending(p: usize) -> (r: bool) {
        false
    }

    fn write_parts<'a, S: PartSink<'a>>(&'a self, flip: bool, sink: &mut S) {
        proof {
            lemma2_to64();
            lemma2_to64_rest();
        }
        let radix: u64 = *self as u64;
        write_fixed(radix, 16, flip, sink);
    }

    fn cmp_key(&self, other: &Self) -> (r: Ordering) {
        proof {
            lemma_one_fixed(16, u16_radix(*self), u16_radix(*other));
        }
        if *self < *other {
            Ordering::Less
        } else if *self == *other {
            Ordering::Equal
        } else {
            Ordering::Greater
        }
    }

    fn spare(&self) -> (r: u32) {
        0
    }

    open spec fn exact_fixed() -> bool {
        true
    }

    fn from_radix(radix: u64, spare: u32) -> (r: Option<Self>)
        ensures
            r == if radix <= 0xFFFF {
                Some(radix as u16)
            } else {
                None
            },
    {
        if radix <= 0xFFFF {
            proof {
                assert forall|x: u16| (#[trigger] x.leaves()).len() == 1 && x.leaves()[0] == (LeafModel::Fixed { bits: 16, desc: false, radix }) implies u16_radix(x) == radix by {}
            }
            Some(radix as u16)
        } else {
            None
        }
    }
}

/// The radix value of `u32`.
pub open spec fn u32_radix(x: u32) -> u64 {
    x as u64
}

impl Key for u32 {
    type Slots<'a> = u64;

    open spec fn parts() -> Seq<Part> {
        seq![fixed_part(32)]
    }

    open spec fn leaves(&self) -> Seq<LeafModel> {
        one_fixed(32, u32_radix(*self))
    }

    proof fn leaves_shaped(&self) {
        assert(self.leaves().len() == Self::parts().len());
        lemma2_to64();
        lemma2_to64_rest();
        lemma_fixed_shaped(32, u32_radix(*self));
    }

    proof fn slots_shaped<'a>() {
        assert(<u64 as SlotTree<'a>>::kinds() =~= capped(kinds_of(Self::parts())));
        lemma2_to64();
        lemma_pow2_pos(32);
        lemma_fixed_shaped(32, 0);
    }

    fn shape() -> (r: Shape) {
        Shape::fixed(32)
    }

    fn leaf_count() -> (r: usize) {
        1
    }

    fn descending(p: usize) -> (r: bool) {
        false
    }

    fn write_parts<'a, S: PartSink<'a>>(&'a self, flip: bool, sink: &mut S) {
        proof {
            lemma2_to64();
            lemma2_to64_rest();
        }
        let radix: u64 = *self as u64;
        write_fixed(radix, 32, flip, sink);
    }

    fn cmp_key(&self, other: &Self) -> (r: Ordering) {
        proof {
            lemma_one_fixed(32, u32_radix(*self), u32_radix(*other));
        }
        if *self < *other {
            Ordering::Less
        } else if *self == *other {
            Ordering::Equal
        } else {
            Ordering::Greater
        }
    }

    fn spare(&self) -> (r: u32) {
        0
    }

    open spec fn exact_fixed() -> bool {
        true
    }

    fn from_radix(radix: u64, spare: u32) -> (r: Option<Self>)
        ensures
            r == if radix <= 0xFFFF_FFFF {
                Some(radix as u32)
            } else {
                None
            },
    {
        if radix <= 0xFFFF_FFFF {
            proof {
                assert forall|x: u32| (#[trigger] x.leaves()).len() == 1 && x.leaves()[0] == (LeafModel::Fixed { bits: 32, desc: false, radix }) implies u32_radix(x) == radix by {}
            }
            Some(radix as u32)
        } else {
            None
        }
    }
}

/// The radix value of `u64`.
pub open spec fn u64_radix(x: u64) -> u64 {
    x
}

impl Key for u64 {
    type Slots<'a> = u64;

    open spec fn parts() -> Seq<Part> {
        seq![fixed_part(64)]
    }

    open spec fn leaves(&self) -> Seq<LeafModel> {
        one_fixed(64, u64_radix(*self))
    }

    proof fn leaves_shaped(&self) {
        assert(self.leaves().len() == Self::parts().len());
        lemma2_to64();
        lemma2_to64_rest();
        lemma_fixed_shaped(64, u64_radix(*self));
    }

    proof fn slots_shaped<'a>() {
        assert(<u64 as SlotTree<'a>>::kinds() =~= capped(kinds_of(Self::parts())));
        lemma2_to64();
        lemma_pow2_pos(64);
        lemma_fixed_shaped(64, 0);
    }

    fn shape() -> (r: Shape) {
        Shape::fixed(64)
    }

    fn leaf_count() -> (r: usize) {
        1
    }

    fn descending(p: usize) -> (r: bool) {
        false
    }

    fn write_parts<'a, S: PartSink<'a>>(&'a self, flip: bool, sink: &mut S) {
        proof {
            lemma2_to64();
            lemma2_to64_rest();
        }
        let radix: u64 = *self;
        write_fixed(radix, 64, flip, sink);
    }

    fn cmp_key(&self, other: &Self) -> (r: Ordering) {
        proof {
            lemma_one_fixed(64, u64_radix(*self), u64_radix(*other));
        }
        if *self < *other {
            Ordering::Less
        } else if *self == *other {
            Ordering::Equal
        } else {
            Ordering::Greater
        }
    }

    fn spare(&self) -> (r: u32) {
        0
    }

    open spec fn exact_fixed() -> bool {
        true
    }

    fn from_radix(radix: u64, spare: u32) -> (r: Option<Self>)
        ensures
            r == Some(radix),
    {
        proof {
            assert forall|x: u64| (#[trigger] x.leaves()).len() == 1 && x.leaves()[0] == (LeafModel::Fixed { bits: 64, desc: false, radix }) implies u64_radix(x) == radix by {}
        }
        Some(radix)
    }
}

/// The radix value of `i8`.
pub open spec fn i8_radix(x: i8) -> u64 {
    (x + 0x80) as u64
}

impl Key for i8 {
    type Slots<'a> = u64;

    open spec fn parts() -> Seq<Part> {
        seq![fixed_part(8)]
    }

    open spec fn leaves(&self) -> Seq<LeafModel> {
        one_fixed(8, i8_radix(*self))
    }

    proof fn leaves_shaped(&self) {
        assert(self.leaves().len() == Self::parts().len());
        lemma2_to64();
        lemma2_to64_rest();
        lemma_fixed_shaped(8, i8_radix(*self));
    }

    proof fn slots_shaped<'a>() {
        assert(<u64 as SlotTree<'a>>::kinds() =~= capped(kinds_of(Self::parts())));
        lemma2_to64();
        lemma_pow2_pos(8);
        lemma_fixed_shaped(8, 0);
    }

    fn shape() -> (r: Shape) {
        Shape::fixed(8)
    }

    fn leaf_count() -> (r: usize) {
        1
    }

    fn descending(p: usize) -> (r: bool) {
        false
    }

    fn write_parts<'a, S: PartSink<'a>>(&'a self, flip: bool, sink: &mut S) {
        proof {
            lemma2_to64();
            lemma2_to64_rest();
        }
        let radix: u64 = (*self as i16 + 0x80) as u64;
        write_fixed(radix, 8, flip, sink);
    }

    fn cmp_key(&self, other: &Self) -> (r: Ordering) {
        proof {
            lemma_one_fixed(8, i8_radix(*self), i8_radix(*other));
        }
        if *self < *other {
            Ordering::Less
        } else if *self == *other {
            Ordering::Equal
        } else {
            Ordering::Greater
        }
    }

    fn spare(&self) -> (r: u32) {
        0
    }

    open spec fn exact_fixed() -> bool {
        true
    }

    fn from_radix(radix: u64, spare: u32) -> (r: Option<Self>)
        ensures
            r == if radix <= 0xFF {
                Some((radix - 0x80) as i8)
            } else {
                None
            },
    {
        if radix <= 0xFF {
            proof {
                assert forall|x: i8| (#[trigger] x.leaves()).len() == 1 && x.leaves()[0] == (LeafModel::Fixed { bits: 8, desc: false, radix }) implies i8_radix(x) == radix by {}
            }
            Some((radix as i16 - 0x80) as i8)
        } else {
            None
        }
    }
}

/// The radix value of `i16`.
pub open spec fn i16_radix(x: i16) -> u64 {
    (x + 0x8000) as u64
}

impl Key for i16 {
    type Slots<'a> = u64;

    open spec fn parts() -> Seq<Part> {
        seq![fixed_part(16)]
    }

    open spec fn leaves(&self) -> Seq<LeafModel> {
        one_fixed(16, i16_radix(*self))
    }

    proof fn leaves_shaped(&self) {
        assert(self.leaves().len() == Self::parts().len());
        lemma2_to64();
        lemma2_to64_rest();
        lemma_fixed_shaped(16, i16_radix(*self));
    }

    proof fn slots_shaped<'a>() {
        assert(<u64 as SlotTree<'a>>::kinds() =~= capped(kinds_of(Self::parts())));
        lemma2_to64();
        lemma_pow2_pos(16);
        lemma_fixed_shaped(16, 0);
    }

    fn shape() -> (r: Shape) {
        Shape::fixed(16)
    }

    fn leaf_count() -> (r: usize) {
        1
    }

    fn descending(p: usize) -> (r: bool) {
        false
    }

    fn write_parts<'a, S: PartSink<'a>>(&'a self, flip: bool, sink: &mut S) {
        proof {
            lemma2_to64();
            lemma2_to64_rest();
        }
        let radix: u64 = (*self as i32 + 0x8000) as u64;
        write_fixed(radix, 16, flip, sink);
    }

    fn cmp_key(&self, other: &Self) -> (r: Ordering) {
        proof {
            lemma_one_fixed(16, i16_radix(*self), i16_radix(*other));
        }
        if *self < *other {
            Ordering::Less
        } else if *self == *other {
            Ordering::Equal
        } else {
            Ordering::Greater
        }
    }

    fn spare(&self) -> (r: u32) {
        0
    }

    open spec fn exact_fixed() -> bool {
        true
    }

    fn from_radix(radix: u64, spare: u32) -> (r: Option<Self>)
        ensures
            r == if radix <= 0xFFFF {
                Some((radix - 0x8000) as i16)
            } else {
                None
            },
    {
        if radix <= 0xFFFF {
            proof {
                assert forall|x: i16| (#[trigger] x.leaves()).len() == 1 && x.leaves()[0] == (LeafModel::Fixed { bits: 16, desc: false, radix }) implies i16_radix(x) == radix by {}
            }
            Some((radix as i32 - 0x8000) as i16)
        } else {
            None
        }
    }
}

/// The radix value of `i32`.
pub open spec fn i32_radix(x: i32) -> u64 {
    (x + 0x8000_0000) as u64
}

impl Key for i32 {
    type Slots<'a> = u64;

    open spec fn parts() -> Seq<Part> {
        seq![fixed_part(32)]
    }

    open spec fn leaves(&self) -> Seq<LeafModel> {
        one_fixed(32, i32_radix(*self))
    }

    proof fn leaves_shaped(&self) {
        assert(self.leaves().len() == Self::parts().len());
        lemma2_to64();
        lemma2_to64_rest();
        lemma_fixed_shaped(32, i32_radix(*self));
    }

    proof fn slots_shaped<'a>() {
        assert(<u64 as SlotTree<'a>>::kinds() =~= capped(kinds_of(Self::parts())));
        lemma2_to64();
        lemma_pow2_pos(32);
        lemma_fixed_shaped(32, 0);
    }

    fn shape() -> (r: Shape) {
        Shape::fixed(32)
    }

    fn leaf_count() -> (r: usize) {
        1
    }

    fn descending(p: usize) -> (r: bool) {
        false
    }

    fn write_parts<'a, S: PartSink<'a>>(&'a self, flip: bool, sink: &mut S) {
        proof {
            lemma2_to64();
            lemma2_to64_rest();
        }
        let radix: u64 = (*self as i64 + 0x8000_0000) as u64;
        write_fixed(radix, 32, flip, sink);
    }

    fn cmp_key(&self, other: &Self) -> (r: Ordering) {
        proof {
            lemma_one_fixed(32, i32_radix(*self), i32_radix(*other));
        }
        if *self < *other {
            Ordering::Less
        } else if *self == *other {
            Ordering::Equal
        } else {
            Ordering::Greater
        }
    }

    fn spare(&self) -> (r: u32) {
        0
    }

    open spec fn exact_fixed() -> bool {
        true
    }

    fn from_radix(radix: u64, spare: u32) -> (r: Option<Self>)
        ensures
            r == if radix <= 0xFFFF_FFFF {
                Some((radix - 0x8000_0000) as i32)
            } else {
                None
            },
    {
        if radix <= 0xFFFF_FFFF {
            proof {
                assert forall|x: i32| (#[trigger] x.leaves()).len() == 1 && x.leaves()[0] == (LeafModel::Fixed { bits: 32, desc: false, radix }) implies i32_radix(x) == radix by {}
            }
            Some((radix as i64 - 0x8000_0000) as i32)
        } else {
            None
        }
    }
}

/// The radix value of `i64`.
pub open spec fn i64_radix(x: i64) -> u64 {
    (x + 0x8000_0000_0000_0000) as u64
}

impl Key for i64 {
    type Slots<'a> = u64;

    open spec fn parts() -> Seq<Part> {
        seq![fixed_part(64)]
    }

    open spec fn leaves(&self) -> Seq<LeafModel> {
        one_fixed(64, i64_radix(*self))
    }

    proof fn leaves_shaped(&self) {
        assert(self.leaves().len() == Self::parts().len());
        lemma2_to64();
        lemma2_to64_rest();
        lemma_fixed_shaped(64, i64_radix(*self));
    }

    proof fn slots_shaped<'a>() {
        assert(<u64 as SlotTree<'a>>::kinds() =~= capped(kinds_of(Self::parts())));
        lemma2_to64();
        lemma_pow2_pos(64);
        lemma_fixed_shaped(64, 0);
    }

    fn shape() -> (r: Shape) {
        Shape::fixed(64)
    }

    fn leaf_count() -> (r: usize) {
        1
    }

    fn descending(p: usize) -> (r: bool) {
        false
    }

    fn write_parts<'a, S: PartSink<'a>>(&'a self, flip: bool, sink: &mut S) {
        proof {
            lemma2_to64();
            lemma2_to64_rest();
        }
        let radix: u64 = (*self as i128 + 0x8000_0000_0000_0000) as u64;
        write_fixed(radix, 64, flip, sink);
    }

    fn cmp_key(&self, other: &Self) -> (r: Ordering) {
        proof {
            lemma_one_fixed(64, i64_radix(*self), i64_radix(*other));
        }
        if *self < *other {
            Ordering::Less
        } else if *self == *other {
            Ordering::Equal
        } else {
            Ordering::Greater
        }
    }

    fn spare(&self) -> (r: u32) {
        0
    }

    open spec fn exact_fixed() -> bool {
        true
    }

    fn from_radix(radix: u64, spare: u32) -> (r: Option<Self>)
        ensures
            r == Some((radix - 0x8000_0000_0000_0000) as i64),
    {
        proof {
            assert forall|x: i64| (#[trigger] x.leaves()).len() == 1 && x.leaves()[0] == (LeafModel::Fixed { bits: 64, desc: false, radix }) implies i64_radix(x) == radix by {}
        }
        Some((radix as i128 - 0x8000_0000_0000_0000) as i64)
    }
}

/// The radix value of `usize`.
pub open spec fn usize_radix(x: usize) -> u64 {
    x as u64
}

impl Key for usize {
    type Slots<'a> = u64;

    open spec fn parts() -> Seq<Part> {
        seq![fixed_part(64)]
    }

    open spec fn leaves(&self) -> Seq<LeafModel> {
        one_fixed(64, usize_radix(*self))
    }

    proof fn leaves_shaped(&self) {
        assert(self.leaves().len() == Self::parts().len());
        lemma2_to64();
        lemma2_to64_rest();
        lemma_fixed_shaped(64, usize_radix(*self));
    }

    proof fn slots_shaped<'a>() {
        assert(<u64 as SlotTree<'a>>::kinds() =~= capped(kinds_of(Self::parts())));
        lemma2_to64();
        lemma_pow2_pos(64);
        lemma_fixed_shaped(64, 0);
    }

    fn shape() -> (r: Shape) {
        Shape::fixed(64)
    }

    fn leaf_count() -> (r: usize) {
        1
    }

    fn descending(p: usize) -> (r: bool) {
        false
    }

    fn write_parts<'a, S: PartSink<'a>>(&'a self, flip: bool, sink: &mut S) {
        proof {
            lemma2_to64();
            lemma2_to64_rest();
        }
        let radix: u64 = *self as u64;
        write_fixed(radix, 64, flip, sink);
    }

    fn cmp_key(&self, other: &Self) -> (r: Ordering) {
        proof {
            lemma_one_fixed(64, usize_radix(*self), usize_radix(*other));
        }
        if *self < *other {
            Ordering::Less
        } else if *self == *other {
            Ordering::Equal
        } else {
            Ordering::Greater
        }
    }

    fn spare(&self) -> (r: u32) {
        0
    }

    open spec fn exact_fixed() -> bool {
        true
    }

    fn from_radix(radix: u64, spare: u32) -> (r: Option<Self>)
        ensures
            r == if radix <= usize::MAX {
                Some(radix as usize)
            } else {
                None
            },
    {
        if radix <= usize::MAX as u64 {
            proof {
                assert forall|x: usize| (#[trigger] x.leaves()).len() == 1 && x.leaves()[0] == (LeafModel::Fixed { bits: 64, desc: false, radix }) implies usize_radix(x) == radix by {}
            }
            Some(radix as usize)
        } else {
            None
        }
    }
}

/// The radix value of `isize`.
pub open spec fn isize_radix(x: isize) -> u64 {
    (x + 0x8000_0000_0000_0000) as u64
}

impl Key for isize {
    type Slots<'a> = u64;

    open spec fn parts() -> Seq<Part> {
        seq![fixed_part(64)]
    }

    open spec fn leaves(&self) -> Seq<LeafModel> {
        one_fixed(64, isize_radix(*self))
    }

    proof fn leaves_shaped(&self) {
        assert(self.leaves().len() == Self::parts().len());
        lemma2_to64();
        lemma2_to64_rest();
        lemma_fixed_shaped(64, isize_radix(*self));
    }

    proof fn slots_shaped<'a>() {
        assert(<u64 as SlotTree<'a>>::kinds() =~= capped(kinds_of(Self::parts())));
        lemma2_to64();
        lemma_pow2_pos(64);
        lemma_fixed_shaped(64, 0);
    }

    fn shape() -> (r: Shape) {
        Shape::fixed(64)
    }

    fn leaf_count() -> (r: usize) {
        1
    }

    fn descending(p: usize) -> (r: bool) {
        false
    }

    fn write_parts<'a, S: PartSink<'a>>(&'a self, flip: bool, sink: &mut S) {
        proof {
            lemma2_to64();
            lemma2_to64_rest();
        }
        let radix: u64 = (*self as i128 + 0x8000_0000_0000_0000) as u64;
        write_fixed(radix, 64, flip, sink);
    }

    fn cmp_key(&self, other: &Self) -> (r: Ordering) {
        proof {
            lemma_one_fixed(64, isize_radix(*self), isize_radix(*other));
        }
        if *self < *other {
            Ordering::Less
        } else if *self == *other {
            Ordering::Equal
        } else {
            Ordering::Greater
        }
    }

    fn spare(&self) -> (r: u32) {
        0
    }

    open spec fn exact_fixed() -> bool {
        true
    }

    fn from_radix(radix: u64, spare: u32) -> (r: Option<Self>)
        ensures
            r == if isize::MIN <= radix - 0x8000_0000_0000_0000 <= isize::MAX {
                Some((radix - 0x8000_0000_0000_0000) as isize)
            } else {
                None
            },
    {
        if radix as i128 - 0x8000_0000_0000_0000 >= isize::MIN as i128 && radix as i128 - 0x8000_0000_0000_0000 <= isize::MAX as i128 {
            proof {
                assert forall|x: isize| (#[trigger] x.leaves()).len() == 1 && x.leaves()[0] == (LeafModel::Fixed { bits: 64, desc: false, radix }) implies isize_radix(x) == radix by {}
            }
            Some((radix as i128 - 0x8000_0000_0000_0000) as isize)
        } else {
            None
        }
    }
}

/// The radix value of `bool`.
pub open spec fn bool_radix(x: bool) -> u64 {
    if x {
        1u64
    } else {
        0u64
    }
}

impl Key for bool {
    type Slots<'a> = u64;

    open spec fn parts() -> Seq<Part> {
        seq![fixed_part(1)]
    }

    open spec fn leaves(&self) -> Seq<LeafModel> {
        one_fixed(1, bool_radix(*self))
    }

    proof fn leaves_shaped(&self) {
        assert(self.leaves().len() == Self::parts().len());
        lemma2_to64();
        lemma2_to64_rest();
        lemma_fixed_shaped(1, bool_radix(*self));
    }

    proof fn slots_shaped<'a>() {
        assert(<u64 as SlotTree<'a>>::kinds() =~= capped(kinds_of(Self::parts())));
        lemma2_to64();
        lemma_pow2_pos(1);
        lemma_fixed_shaped(1, 0);
    }

    fn shape() -> (r: Shape) {
        Shape::fixed(1)
    }

    fn leaf_count() -> (r: usize) {
        1
    }

    fn descending(p: usize) -> (r: bool) {
        false
    }

    fn write_parts<'a, S: PartSink<'a>>(&'a self, flip: bool, sink: &mut S) {
        proof {
            lemma2_to64();
            lemma2_to64_rest();
        }
        let radix: u64 = if *self {
            1
        } else {
            0
        };
        write_fixed(radix, 1, flip, sink);
    }

    fn cmp_key(&self, other: &Self) -> (r: Ordering) {
        proof {
            lemma_one_fixed(1, bool_radix(*self), bool_radix(*other));
        }
        order_radix(if *self { 1 } else { 0 }, if *other { 1 } else { 0 })
    }

    fn spare(&self) -> (r: u32) {
        0
    }

    open spec fn exact_fixed() -> bool {
        true
    }

    fn from_radix(radix: u64, spare: u32) -> (r: Option<Self>)
        ensures
            r == if radix <= 1 {
                Some(radix == 1)
            } else {
                None
            },
    {
        if radix <= 1 {
            proof {
                assert forall|x: bool| (#[trigger] x.leaves()).len() == 1 && x.leaves()[0] == (LeafModel::Fixed { bits: 1, desc: false, radix }) implies bool_radix(x) == radix by {}
            }
            Some(radix == 1)
        } else {
            None
        }
    }
}

/// The radix value of `char`.
pub open spec fn char_radix(x: char) -> u64 {
    x as u32 as u64
}

proof fn lemma_char_fits(x: char)
    ensures
        char_radix(x) <= 0x10FFFF,
{
}

/// The radix value of `c`.
fn char_value(c: char) -> (r: u64)
    ensures
        r == char_radix(c),
        r <= 0x10FFFF,
{
    c as u32 as u64
}

impl Key for char {
    type Slots<'a> = u64;

    open spec fn parts() -> Seq<Part> {
        seq![fixed_part(32)]
    }

    open spec fn leaves(&self) -> Seq<LeafModel> {
        one_fixed(32, char_radix(*self))
    }

    proof fn leaves_shaped(&self) {
        assert(self.leaves().len() == Self::parts().len());
        lemma2_to64();
        lemma2_to64_rest();
        lemma_char_fits(*self);
        lemma_fixed_shaped(32, char_radix(*self));
    }

    proof fn slots_shaped<'a>() {
        assert(<u64 as SlotTree<'a>>::kinds() =~= capped(kinds_of(Self::parts())));
        lemma2_to64();
        lemma_pow2_pos(32);
        lemma_fixed_shaped(32, 0);
    }

    fn shape() -> (r: Shape) {
        Shape::fixed(32)
    }

    fn leaf_count() -> (r: usize) {
        1
    }

    fn descending(p: usize) -> (r: bool) {
        false
    }

    fn write_parts<'a, S: PartSink<'a>>(&'a self, flip: bool, sink: &mut S) {
        proof {
            lemma2_to64();
            lemma2_to64_rest();
        }
        let radix: u64 = char_value(*self);
        write_fixed(radix, 32, flip, sink);
    }

    fn cmp_key(&self, other: &Self) -> (r: Ordering) {
        proof {
            lemma_one_fixed(32, char_radix(*self), char_radix(*other));
        }
        order_radix(char_value(*self), char_value(*other))
    }

    fn spare(&self) -> (r: u32) {
        0
    }

    fn from_radix(radix: u64, spare: u32) -> (r: Option<Self>) {
        None
    }
}

// ---- floating point ------------------------------------------------------------------------------

/// The bit pattern of an `f64`, as a key.
#[derive(Clone, Copy, Debug, PartialEq, Eq, Structural)]
pub struct F64Bits(pub u64);

/// The bit pattern of an `f32`, as a key.
#[derive(Clone, Copy, Debug, PartialEq, Eq, Structural)]
pub struct F32Bits(pub u32);

/// The number that a 64-bit pattern stands for in sign and magnitude: the order
/// of these numbers is the order of the floating point numbers, with `-0.0` and
/// `+0.0` equal, a NaN with the sign bit clear after `+inf`, and one with it set
/// before `-inf`, by payload.
pub open spec fn f64_magnitude(bits: u64) -> int {
    if bits >= 0x8000_0000_0000_0000 {
        0x8000_0000_0000_0000 - bits
    } else {
        bits as int
    }
}

/// The same of a 32-bit pattern.
pub open spec fn f32_magnitude(bits: u32) -> int {
    if bits >= 0x8000_0000 {
        0x8000_0000 - bits
    } else {
        bits as int
    }
}

/// The order-preserving radix form of an `f64`, from its bits: a positive value
/// maps to `bits | 2^63`, a negative one to `2^63 - magnitude`, so `-0.0` and
/// `+0.0` both map to 2^63 and compare equal.
pub fn f64_radix(bits: u64) -> (r: u64)
    ensures
        r == 0x8000_0000_0000_0000 + f64_magnitude(bits),
{
    if bits >= 0x8000_0000_0000_0000 {
        0x8000_0000_0000_0000 - (bits - 0x8000_0000_0000_0000)
    } else {
        bits + 0x8000_0000_0000_0000
    }
}

/// The order-preserving radix form of an `f32`, from its bits.
pub fn f32_radix(bits: u32) -> (r: u32)
    ensures
        r == 0x8000_0000 + f32_magnitude(bits),
{
    if bits >= 0x8000_0000 {
        0x8000_0000 - (bits - 0x8000_0000)
    } else {
        bits + 0x8000_0000
    }
}

impl Key for F64Bits {
    type Slots<'a> = u64;

    open spec fn parts() -> Seq<Part> {
        seq![fixed_part(64)]
    }

    open spec fn leaves(&self) -> Seq<LeafModel> {
        one_fixed(64, (0x8000_0000_0000_0000 + f64_magnitude(self.0)) as u64)
    }

    open spec fn spare_word(&self) -> u32 {
        if self.0 == 0x8000_0000_0000_0000 {
            1
        } else {
            0
        }
    }

    proof fn leaves_shaped(&self) {
        assert(self.leaves().len() == Self::parts().len());
        lemma2_to64();
        lemma2_to64_rest();
        lemma_fixed_shaped(64, (0x8000_0000_0000_0000 + f64_magnitude(self.0)) as u64);
    }

    proof fn slots_shaped<'a>() {
        assert(<u64 as SlotTree<'a>>::kinds() =~= capped(kinds_of(Self::parts())));
        lemma_pow2_pos(64);
        lemma_fixed_shaped(64, 0);
    }

    fn shape() -> (r: Shape) {
        Shape::fixed(64)
    }

    fn leaf_count() -> (r: usize) {
        1
    }

    fn descending(p: usize) -> (r: bool) {
        false
    }

    fn write_parts<'a, S: PartSink<'a>>(&'a self, flip: bool, sink: &mut S) {
        proof {
            lemma2_to64_rest();
        }
        write_fixed(f64_radix(self.0), 64, flip, sink);
    }

    fn cmp_key(&self, other: &Self) -> (r: Ordering) {
        let x: u64 = f64_radix(self.0);
        let y: u64 = f64_radix(other.0);
        proof {
            lemma_one_fixed(64, x, y);
        }
        order_radix(x, y)
    }

    fn spare(&self) -> (r: u32) {
        if self.0 == 0x8000_0000_0000_0000 {
            1
        } else {
            0
        }
    }

    open spec fn exact_fixed() -> bool {
        true
    }

    fn from_radix(radix: u64, spare: u32) -> (r: Option<Self>)
        ensures
            r is Some,
            r matches Some(k) ==> (spare != 0 || radix == 0 ==> k.0 == 0x8000_0000_0000_0000),
            r matches Some(k) ==> (spare == 0 && radix > 0 ==> 0x8000_0000_0000_0000 + f64_magnitude(k.0) == radix && k.0 != 0x8000_0000_0000_0000),
    {
        let k = F64Bits(f64_from_radix(radix, spare != 0));
        proof {
            assert forall|x: F64Bits| (#[trigger] x.leaves()).len() == 1 && x.spare_word() == spare && x.leaves()[0] == (LeafModel::Fixed { bits: 64, desc: false, radix }) implies x == k by {
                assert(radix == 0x8000_0000_0000_0000 + f64_magnitude(x.0));
            }
        }
        Some(k)
    }
}

/// The bits of the `f64` with the given radix form: a bijection but for the two
/// zeros, which share theirs.
pub fn f64_from_radix(radix: u64, negative_zero: bool) -> (r: u64)
    ensures
        negative_zero || radix == 0 ==> r == 0x8000_0000_0000_0000,
        !negative_zero && radix > 0 ==> 0x8000_0000_0000_0000 + f64_magnitude(r) == radix && r != 0x8000_0000_0000_0000,
{
    if negative_zero {
        0x8000_0000_0000_0000
    } else if radix >= 0x8000_0000_0000_0000 {
        radix - 0x8000_0000_0000_0000
    } else if radix > 0 {
        0x8000_0000_0000_0000 + (0x8000_0000_0000_0000 - radix)
    } else {
        0x8000_0000_0000_0000
    }
}

impl Key for F32Bits {
    type Slots<'a> = u64;

    open spec fn parts() -> Seq<Part> {
        seq![fixed_part(32)]
    }

    open spec fn leaves(&self) -> Seq<LeafModel> {
        one_fixed(32, (0x8000_0000 + f32_magnitude(self.0)) as u64)
    }

    proof fn leaves_shaped(&self) {
        assert(self.leaves().len() == Self::parts().len());
        lemma2_to64();
        lemma_fixed_shaped(32, (0x8000_0000 + f32_magnitude(self.0)) as u64);
    }

    proof fn slots_shaped<'a>() {
        assert(<u64 as SlotTree<'a>>::kinds() =~= capped(kinds_of(Self::parts())));
        lemma_pow2_pos(32);
        lemma_fixed_shaped(32, 0);
    }

    fn shape() -> (r: Shape) {
        Shape::fixed(32)
    }

    fn leaf_count() -> (r: usize) {
        1
    }

    fn descending(p: usize) -> (r: bool) {
        false
    }

    fn write_parts<'a, S: PartSink<'a>>(&'a self, flip: bool, sink: &mut S) {
        proof {
            lemma2_to64();
        }
        write_fixed(f32_radix(self.0) as u64, 32, flip, sink);
    }

    fn cmp_key(&self, other: &Self) -> (r: Ordering) {
        let x: u64 = u64::from(f32_radix(self.0));
        let y: u64 = u64::from(f32_radix(other.0));
        proof {
            lemma_one_fixed(32, x, y);
        }
        order_radix(x, y)
    }

    fn spare(&self) -> (r: u32) {
        0
    }

    fn from_radix(radix: u64, spare: u32) -> (r: Option<Self>) {
        None
    }
}

// ---- 128 bits ------------------------------------------------------------------------------------

/// Two fixed leaves of 64 bits, the high word first.
pub open spec fn two_fixed(hi: u64, lo: u64) -> Seq<LeafModel> {
    seq![LeafModel::Fixed { bits: 64, desc: false, radix: hi }, LeafModel::Fixed { bits: 64, desc: false, radix: lo }]
}

proof fn lemma_two_fixed(a: u64, b: u64, c: u64, d: u64)
    ensures
        key_ordering(two_fixed(a, b), two_fixed(c, d)) == if a < c || (a == c && b < d) {
            Ordering::Less
        } else if a == c && b == d {
            Ordering::Equal
        } else {
            Ordering::Greater
        },
{
    reveal_with_fuel(key_le_from, 3);
    if a != c {
        assert(two_fixed(a, b)[0] != two_fixed(c, d)[0]);
    } else if b != d {
        assert(two_fixed(a, b)[1] != two_fixed(c, d)[1]);
    }
}

proof fn lemma_two_shaped(hi: u64, lo: u64)
    ensures
        shaped(two_fixed(hi, lo), seq![fixed_part(64)] + seq![fixed_part(64)]),
        capped(kinds_of(seq![fixed_part(64)] + seq![fixed_part(64)])) == capped(seq![false] + seq![false]),
{
    lemma2_to64_rest();
    assert(kinds_of(seq![fixed_part(64)] + seq![fixed_part(64)]) =~= seq![false] + seq![false]);
}

/// Hands two fixed leaves to a sink.
fn write_two<'a, S: PartSink<'a>>(hi: u64, lo: u64, flip: bool, sink: &mut S)
    requires
        old(sink).ready(),
    ensures
        final(sink).ready(),
        final(sink).log() == old(sink).log() + turned(two_fixed(hi, lo), flip),
{
    proof {
        lemma2_to64_rest();
    }
    sink.fixed(hi, 64, flip);
    sink.fixed(lo, 64, flip);
    assert(sink.log() =~= old(sink).log() + turned(two_fixed(hi, lo), flip));
}

fn two_shape() -> (r: Shape)
    ensures
        r.n <= MAX_PARTS + 1,
        r.describes(seq![fixed_part(64)] + seq![fixed_part(64)]),
{
    Shape::concat(&Shape::fixed(64), &Shape::fixed(64))
}

/// The high word.
pub open spec fn high_word(x: int) -> u64 {
    (x / 0x1_0000_0000_0000_0000) as u64
}

/// The low word.
pub open spec fn low_word(x: int) -> u64 {
    (x % 0x1_0000_0000_0000_0000) as u64
}

/// The words of a 128-bit number.
fn words(x: u128) -> (r: (u64, u64))
    ensures
        r.0 == high_word(x as int),
        r.1 == low_word(x as int),
{
    ((x / 0x1_0000_0000_0000_0000) as u64, (x % 0x1_0000_0000_0000_0000) as u64)
}

/// The number with the sign bit turned, so that the unsigned order is that of
/// the signed numbers.
fn turned_sign(x: i128) -> (r: u128)
    ensures
        r == x + 0x8000_0000_0000_0000_0000_0000_0000_0000,
{
    if x >= 0 {
        x as u128 + 0x8000_0000_0000_0000_0000_0000_0000_0000
    } else {
        (x + 0x7FFF_FFFF_FFFF_FFFF_FFFF_FFFF_FFFF_FFFF + 1) as u128
    }
}

/// Words order numbers below 2^128 lexicographically.
proof fn lemma_words_order(x: int, y: int)
    requires
        0 <= x < 0x1_0000_0000_0000_0000_0000_0000_0000_0000,
        0 <= y < 0x1_0000_0000_0000_0000_0000_0000_0000_0000,
    ensures
        high_word(x) == x / 0x1_0000_0000_0000_0000,
        low_word(x) == x % 0x1_0000_0000_0000_0000,
        high_word(y) == y / 0x1_0000_0000_0000_0000,
        low_word(y) == y % 0x1_0000_0000_0000_0000,
        x < y <==> high_word(x) < high_word(y) || (high_word(x) == high_word(y) && low_word(x) < low_word(y)),
        x == y <==> high_word(x) == high_word(y) && low_word(x) == low_word(y),
{
}

impl Key for u128 {
    type Slots<'a> = SlotPair<u64, u64>;

    open spec fn parts() -> Seq<Part> {
        seq![fixed_part(64)] + seq![fixed_part(64)]
    }

    open spec fn leaves(&self) -> Seq<LeafModel> {
        two_fixed(high_word((*self) as int), low_word((*self) as int))
    }

    proof fn leaves_shaped(&self) {
        assert(self.leaves().len() == Self::parts().len());
        lemma_two_shaped(high_word((*self) as int), low_word((*self) as int));
    }

    proof fn slots_shaped<'a>() {
        assert(<SlotPair<u64, u64> as SlotTree<'a>>::kinds() =~= capped(kinds_of(Self::parts())));
        lemma_two_shaped(0, 0);
    }

    fn shape() -> (r: Shape) {
        two_shape()
    }

    fn leaf_count() -> (r: usize) {
        2
    }

    fn descending(p: usize) -> (r: bool) {
        false
    }

    fn write_parts<'a, S: PartSink<'a>>(&'a self, flip: bool, sink: &mut S) {
        let (hi, lo) = words(*self);
        write_two(hi, lo, flip, sink);
    }

    fn cmp_key(&self, other: &Self) -> (r: Ordering) {
        proof {
            lemma_u128_order(*self, *other);
        }
        if *self < *other {
            Ordering::Less
        } else if *self == *other {
            Ordering::Equal
        } else {
            Ordering::Greater
        }
    }

    fn spare(&self) -> (r: u32) {
        0
    }

    fn from_radix(radix: u64, spare: u32) -> (r: Option<Self>) {
        None
    }
}

proof fn lemma_u128_order(x: u128, y: u128)
    ensures
        key_ordering(x.leaves(), y.leaves()) == if x < y {
            Ordering::Less
        } else if x == y {
            Ordering::Equal
        } else {
            Ordering::Greater
        },
{
    let (a, b) = (wide_u128(x), wide_u128(y));
    lemma_words_order(a, b);
    lemma_two_fixed(high_word(a), low_word(a), high_word(b), low_word(b));
}

/// The number that the words are taken of.
spec fn wide_u128(x: u128) -> int {
    (x) as int
}

impl Key for i128 {
    type Slots<'a> = SlotPair<u64, u64>;

    open spec fn parts() -> Seq<Part> {
        seq![fixed_part(64)] + seq![fixed_part(64)]
    }

    open spec fn leaves(&self) -> Seq<LeafModel> {
        two_fixed(high_word(*self + 0x8000_0000_0000_0000_0000_0000_0000_0000), low_word(*self + 0x8000_0000_0000_0000_0000_0000_0000_0000))
    }

    proof fn leaves_shaped(&self) {
        assert(self.leaves().len() == Self::parts().len());
        lemma_two_shaped(high_word(*self + 0x8000_0000_0000_0000_0000_0000_0000_0000), low_word(*self + 0x8000_0000_0000_0000_0000_0000_0000_0000));
    }

    proof fn slots_shaped<'a>() {
        assert(<SlotPair<u64, u64> as SlotTree<'a>>::kinds() =~= capped(kinds_of(Self::parts())));
        lemma_two_shaped(0, 0);
    }

    fn shape() -> (r: Shape) {
        two_shape()
    }

    fn leaf_count() -> (r: usize) {
        2
    }

    fn descending(p: usize) -> (r: bool) {
        false
    }

    fn write_parts<'a, S: PartSink<'a>>(&'a self, flip: bool, sink: &mut S) {
        let (hi, lo) = words(turned_sign(*self));
        write_two(hi, lo, flip, sink);
    }

    fn cmp_key(&self, other: &Self) -> (r: Ordering) {
        proof {
            lemma_i128_order(*self, *other);
        }
        if *self < *other {
            Ordering::Less
        } else if *self == *other {
            Ordering::Equal
        } else {
            Ordering::Greater
        }
    }

    fn spare(&self) -> (r: u32) {
        0
    }

    fn from_radix(radix: u64, spare: u32) -> (r: Option<Self>) {
        None
    }
}

proof fn lemma_i128_order(x: i128, y: i128)
    ensures
        key_ordering(x.leaves(), y.leaves()) == if x < y {
            Ordering::Less
        } else if x == y {
            Ordering::Equal
        } else {
            Ordering::Greater
        },
{
    let (a, b) = (wide_i128(x), wide_i128(y));
    lemma_words_order(a, b);
    lemma_two_fixed(high_word(a), low_word(a), high_word(b), low_word(b));
}

/// The number that the words are taken of.
spec fn wide_i128(x: i128) -> int {
    x + 0x8000_0000_0000_0000_0000_0000_0000_0000
}

} // verus!
