//! Keys of one byte string.
use crate::key::{key_le_from, key_ordering, shaped, turned, Key, LeafModel, PartSink};
use crate::key::slots::{capped, kinds_of, BytesSlot, SlotTree};
use crate::shape::{bytes_part, Part, Shape};
use crate::text::{bytes_le, bytes_order_total, str_compare_from};
use core::cmp::Ordering;
use std::borrow::Cow;
use vstd::prelude::*;
use vstd::utf8::encode_utf8;

verus! {

/// One byte string, ascending.
pub open spec fn one_text(text: Seq<u8>) -> Seq<LeafModel> {
    seq![LeafModel::Bytes { desc: false, text }]
}

/// Keys of one byte string are ordered by the bytes.
pub proof fn lemma_one_text(x: Seq<u8>, y: Seq<u8>)
    ensures
        key_ordering(one_text(x), one_text(y)) == if !bytes_le(y, x) {
            Ordering::Less
        } else if bytes_le(x, y) {
            Ordering::Equal
        } else {
            Ordering::Greater
        },
{
    reveal_with_fuel(key_le_from, 2);
    bytes_order_total(x, y, 0);
    if x != y {
        assert(one_text(x)[0] != one_text(y)[0]);
    }
}

proof fn lemma_text_shaped(text: Seq<u8>)
    ensures
        shaped(one_text(text), seq![bytes_part()]),
        capped(kinds_of(seq![bytes_part()])) == seq![true],
{
    assert(kinds_of(seq![bytes_part()]) =~= seq![true]);
}

/// Hands one byte string to a sink.
fn write_text<'a, S: PartSink<'a>>(b: &'a [u8], flip: bool, sink: &mut S)
    requires
        old(sink).ready(),
    ensures
        final(sink).ready(),
        final(sink).log() == old(sink).log() + turned(one_text(b@), flip),
{
    sink.bytes(b, flip);
    assert(sink.log() =~= old(sink).log() + turned(one_text(b@), flip));
}

/// Compares two byte strings.
fn order_text(a: &[u8], b: &[u8]) -> (r: Ordering)
    ensures
        r == key_ordering(one_text(a@), one_text(b@)),
{
    proof {
        lemma_one_text(a@, b@);
    }
    let c: i32 = str_compare_from(a, b, 0);
    if c < 0 {
        Ordering::Less
    } else if c == 0 {
        Ordering::Equal
    } else {
        Ordering::Greater
    }
}

impl Key for [u8] {
    type Slots<'a> = BytesSlot<'a>;

    open spec fn parts() -> Seq<Part> {
        seq![bytes_part()]
    }

    open spec fn leaves(&self) -> Seq<LeafModel> {
        one_text(self@)
    }

    proof fn leaves_shaped(&self) {
        assert(self.leaves().len() == Self::parts().len());
        lemma_text_shaped(self@);
    }

    proof fn slots_shaped<'a>() {
        assert(<BytesSlot<'a> as SlotTree<'a>>::kinds() =~= capped(kinds_of(Self::parts())));
        lemma_text_shaped(Seq::empty());
    }

    fn shape() -> (r: Shape) {
        Shape::bytes()
    }

    fn leaf_count() -> (r: usize) {
        1
    }

    fn descending(p: usize) -> (r: bool) {
        false
    }

    fn write_parts<'a, S: PartSink<'a>>(&'a self, flip: bool, sink: &mut S) {
        write_text(self, flip, sink);
    }

    fn cmp_key(&self, other: &Self) -> (r: Ordering) {
        order_text(self, other)
    }

    fn spare(&self) -> (r: u32) {
        0
    }
}

impl Key for Vec<u8> {
    type Slots<'a> = BytesSlot<'a>;

    open spec fn parts() -> Seq<Part> {
        seq![bytes_part()]
    }

    open spec fn leaves(&self) -> Seq<LeafModel> {
        one_text(self@)
    }

    proof fn leaves_shaped(&self) {
        assert(self.leaves().len() == Self::parts().len());
        lemma_text_shaped(self@);
    }

    proof fn slots_shaped<'a>() {
        assert(<BytesSlot<'a> as SlotTree<'a>>::kinds() =~= capped(kinds_of(Self::parts())));
        lemma_text_shaped(Seq::empty());
    }

    fn shape() -> (r: Shape) {
        Shape::bytes()
    }

    fn leaf_count() -> (r: usize) {
        1
    }

    fn descending(p: usize) -> (r: bool) {
        false
    }

    fn write_parts<'a, S: PartSink<'a>>(&'a self, flip: bool, sink: &mut S) {
        write_text(self.as_slice(), flip, sink);
    }

    fn cmp_key(&self, other: &Self) -> (r: Ordering) {
        order_text(self.as_slice(), other.as_slice())
    }

    fn spare(&self) -> (r: u32) {
        0
    }

    fn from_radix(radix: u64, spare: u32) -> (r: Option<Self>) {
        None
    }
}

impl Key for str {
    type Slots<'a> = BytesSlot<'a>;

    open spec fn parts() -> Seq<Part> {
        seq![bytes_part()]
    }

    open spec fn leaves(&self) -> Seq<LeafModel> {
        one_text(encode_utf8(self@))
    }

    proof fn leaves_shaped(&self) {
        assert(self.leaves().len() == Self::parts().len());
        lemma_text_shaped(encode_utf8(self@));
    }

    proof fn slots_shaped<'a>() {
        assert(<BytesSlot<'a> as SlotTree<'a>>::kinds() =~= capped(kinds_of(Self::parts())));
        lemma_text_shaped(Seq::empty());
    }

    fn shape() -> (r: Shape) {
        Shape::bytes()
    }

    fn leaf_count() -> (r: usize) {
        1
    }

    fn descending(p: usize) -> (r: bool) {
        false
    }

    fn write_parts<'a, S: PartSink<'a>>(&'a self, flip: bool, sink: &mut S) {
        write_text(self.as_bytes(), flip, sink);
    }

    fn cmp_key(&self, other: &Self) -> (r: Ordering) {
        order_text(self.as_bytes(), other.as_bytes())
    }

    fn spare(&self) -> (r: u32) {
        0
    }
}

impl Key for String {
    type Slots<'a> = BytesSlot<'a>;

    open spec fn parts() -> Seq<Part> {
        seq![bytes_part()]
    }

    open spec fn leaves(&self) -> Seq<LeafModel> {
        one_text(encode_utf8(self@))
    }

    proof fn leaves_shaped(&self) {
        assert(self.leaves().len() == Self::parts().len());
        lemma_text_shaped(encode_utf8(self@));
    }

    proof fn slots_shaped<'a>() {
        assert(<BytesSlot<'a> as SlotTree<'a>>::kinds() =~= capped(kinds_of(Self::parts())));
        lemma_text_shaped(Seq::empty());
    }

    fn shape() -> (r: Shape) {
        Shape::bytes()
    }

    fn leaf_count() -> (r: usize) {
        1
    }

    fn descending(p: usize) -> (r: bool) {
        false
    }

    fn write_parts<'a, S: PartSink<'a>>(&'a self, flip: bool, sink: &mut S) {
        write_text(self.as_str().as_bytes(), flip, sink);
    }

    fn cmp_key(&self, other: &Self) -> (r: Ordering) {
        order_text(self.as_str().as_bytes(), other.as_str().as_bytes())
    }

    fn spare(&self) -> (r: u32) {
        0
    }

    fn from_radix(radix: u64, spare: u32) -> (r: Option<Self>) {
        None
    }
}

/// The bytes of a text that is borrowed or owned.
fn text_of<'a, 'c>(t: &'a Cow<'c, str>) -> (r: &'a [u8])
    ensures
        r@ == encode_utf8(t@),
{
    match t {
        Cow::Borrowed(b) => b.as_bytes(),
        Cow::Owned(o) => o.as_str().as_bytes(),
    }
}

impl<'c> Key for Cow<'c, str> {
    type Slots<'a> = BytesSlot<'a>;

    open spec fn parts() -> Seq<Part> {
        seq![bytes_part()]
    }

    open spec fn leaves(&self) -> Seq<LeafModel> {
        one_text(encode_utf8(self@))
    }

    proof fn leaves_shaped(&self) {
        assert(self.leaves().len() == Self::parts().len());
        lemma_text_shaped(encode_utf8(self@));
    }

    proof fn slots_shaped<'a>() {
        assert(<BytesSlot<'a> as SlotTree<'a>>::kinds() =~= capped(kinds_of(Self::parts())));
        lemma_text_shaped(Seq::empty());
    }

    fn shape() -> (r: Shape) {
        Shape::bytes()
    }

    fn leaf_count() -> (r: usize) {
        1
    }

    fn descending(p: usize) -> (r: bool) {
        false
    }

    fn write_parts<'a, S: PartSink<'a>>(&'a self, flip: bool, sink: &mut S) {
        write_text(text_of(self), flip, sink);
    }

    fn cmp_key(&self, other: &Self) -> (r: Ordering) {
        order_text(text_of(self), text_of(other))
    }

    fn spare(&self) -> (r: u32) {
        0
    }

    fn from_radix(radix: u64, spare: u32) -> (r: Option<Self>) {
        None
    }
}

} // verus!
