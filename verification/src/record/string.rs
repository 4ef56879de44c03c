//! The record of a single byte string.
use crate::key::{key_le_from, part_of, Key, LeafModel, PartSink};
use crate::key::slots::{kept, SLOT_MAX};
use crate::record::{all_short, Record};
use crate::shape::Part;
use crate::text::{
    bytes_order_total, examined, lemma_text_agree, lemma_text_ends, loaded, same_below,
    str_chunk_bytes, str_chunk_ends, str_chunk_key, str_chunk_key_desc, str_compare_from,
    str_examined, text_chunks, text_chunks_order, STR_CHUNK_BYTES,
};
use crate::view::{agree_below, place_of, Elem, RadixKey};
use vstd::arithmetic::logarithm::log;
use vstd::prelude::*;

verus! {

/// A single byte string; `DESC` reverses its order.
#[derive(Clone, Copy, Debug)]
pub struct StrRec<'a, const DESC: bool> {
    /// The bytes.
    pub bytes: &'a [u8],
    /// The original index.
    pub idx: u32,
}

/// What a record keeps of a byte string.
pub fn kept_bytes<'a>(b: &'a [u8]) -> (r: &'a [u8])
    ensures
        r@ == kept(b@),
        r@.len() <= SLOT_MAX,
{
    if b.len() as u64 <= SLOT_MAX {
        b
    } else {
        vstd::slice::slice_subrange(b, 0, SLOT_MAX as usize)
    }
}

/// Byte strings that agree below a chunk agree on the bytes before it, or are
/// the same.
pub proof fn lemma_text_common(a: Seq<u8>, b: Seq<u8>, desc: bool, c: int)
    requires
        0 <= c,
        agree_below(text_chunks(a, desc), text_chunks(b, desc), c),
    ensures
        same_below(a, b, 7 * c) || a == b,
{
    if c < text_chunks(a, desc).len() && c < text_chunks(b, desc).len() {
        lemma_text_agree(a, b, desc, c);
    } else {
        lemma_text_ends(a, b, desc, c - 1);
    }
}

impl<'a, const DESC: bool> Elem for StrRec<'a, DESC> {
    type Key = u64;

    open spec fn chunks(&self) -> Seq<u64> {
        text_chunks(kept(self.bytes@), DESC)
    }

    proof fn chunks_fit(&self) {
        0u64.word_fits();
        assert forall|c: int| 0 <= c < self.chunks().len() && <u64 as RadixKey>::BITS == 32 implies #[trigger] self.chunks()[c] <= 0xFFFF_FFFF by {
            self.chunks()[c].word_fits();
        }
    }

    proof fn chunks_end_together(a: Self, b: Self, c: int) {
        lemma_text_ends(kept(a.bytes@), kept(b.bytes@), DESC, c);
    }

    open spec fn has_chunks() -> bool {
        true
    }

    fn chunked() -> (r: bool) {
        true
    }

    fn less(a: Self, b: Self) -> (r: bool) {
        Self::compare_from(a, b, 0) < 0
    }

    fn compare(a: Self, b: Self) -> (r: i32) {
        Self::compare_from(a, b, 0)
    }

    fn compare_from(a: Self, b: Self, chunk: u64) -> (r: i32) {
        let x: &'a [u8] = kept_bytes(a.bytes);
        let y: &'a [u8] = kept_bytes(b.bytes);
        proof {
            lemma_text_common(x@, y@, DESC, chunk as int);
            text_chunks_order(x@, y@, DESC);
            text_chunks_order(y@, x@, DESC);
        }
        let c: i32 = str_compare_from(x, y, chunk * STR_CHUNK_BYTES);
        if DESC {
            -c
        } else {
            c
        }
    }

    fn radix_key(a: Self, chunk: u64) -> (r: Self::Key) {
        let x: &'a [u8] = kept_bytes(a.bytes);
        if DESC {
            str_chunk_key_desc(x, chunk)
        } else {
            str_chunk_key(x, chunk)
        }
    }

    fn chunk_ends(a: Self, chunk: u64) -> (r: bool) {
        let x: &'a [u8] = kept_bytes(a.bytes);
        str_chunk_ends(x.len() as u64, chunk)
    }

    open spec fn key_load(&self, chunk: int) -> int {
        loaded(kept(self.bytes@).len() as int, chunk)
    }

    open spec fn compare_load(&self, other: &Self, chunk: int) -> int {
        2 * examined(kept(self.bytes@), kept(other.bytes@), 7 * chunk)
    }

    fn key_bytes(a: Self, chunk: u64) -> (r: u64) {
        str_chunk_bytes(kept_bytes(a.bytes).len() as u64, chunk)
    }

    fn compare_bytes(a: Self, b: Self, chunk: u64) -> (r: u64) {
        if chunk >= 0x10_0000_0000 {
            return 0;
        }
        2 * str_examined(kept_bytes(a.bytes), kept_bytes(b.bytes), chunk * STR_CHUNK_BYTES)
    }

    fn key_place(a: Self, chunk: u64) -> (r: usize) {
        place_of(a.bytes).wrapping_add((chunk as usize).wrapping_mul(STR_CHUNK_BYTES as usize))
    }
}

/// Takes the one byte string of a key.
struct TakeText<'a> {
    bytes: &'a [u8],
    seen: Ghost<Seq<LeafModel>>,
}

impl<'a> PartSink<'a> for TakeText<'a> {
    closed spec fn log(&self) -> Seq<LeafModel> {
        self.seen@
    }

    closed spec fn ready(&self) -> bool {
        self.seen@.len() > 0 ==> (self.seen@.last() matches LeafModel::Bytes { desc, text } ==> text == self.bytes@)
    }

    fn fixed(&mut self, radix: u64, bits: u8, desc: bool) {
        self.seen = Ghost(self.seen@.push(LeafModel::Fixed { bits, desc, radix }));
    }

    fn bytes(&mut self, b: &'a [u8], desc: bool) {
        self.seen = Ghost(self.seen@.push(LeafModel::Bytes { desc, text: b@ }));
        self.bytes = b;
    }
}

/// The text of a byte-string leaf.
pub open spec fn text_of(l: LeafModel) -> Seq<u8> {
    match l {
        LeafModel::Bytes { desc, text } => text,
        LeafModel::Fixed { bits, desc, radix } => Seq::empty(),
    }
}

impl<'a, const DESC: bool> Record<'a> for StrRec<'a, DESC> {
    open spec fn suits(parts: Seq<Part>) -> bool {
        parts == seq![Part { bytes: true, bits: 0, desc: DESC }]
    }

    open spec fn chunks_for(leaves: Seq<LeafModel>) -> Seq<u64> {
        text_chunks(kept(text_of(leaves[0])), DESC)
    }

    open spec fn place(&self) -> u32 {
        self.idx
    }

    open spec fn kept_word(&self) -> u32 {
        0
    }

    proof fn order_kept(a: Seq<LeafModel>, b: Seq<LeafModel>, parts: Seq<Part>) {
        let (x, y) = (text_of(a[0]), text_of(b[0]));
        assert(part_of(a[0]) == parts[0] && part_of(b[0]) == parts[0]);
        text_chunks_order(x, y, DESC);
        bytes_order_total(x, y, 0);
        reveal_with_fuel(key_le_from, 2);
    }

    fn build<Q: Key + ?Sized>(key: &'a Q, idx: u32) -> (r: Option<Self>) {
        let none: &'a [u8] = &[];
        let mut sink = TakeText { bytes: none, seen: Ghost(Seq::empty()) };
        key.write_parts(false, &mut sink);
        proof {
            key.leaves_shaped();
            let s = key.leaves();
            assert(Seq::<LeafModel>::empty() + s =~= s);
            assert(part_of(s[0]) == Q::parts()[0]);
            assert(sink.seen@.last() == s[0]);
        }
        if sink.bytes.len() as u64 > SLOT_MAX {
            assert(!all_short(key.leaves())) by {
                assert(key.leaves()[0] is Bytes);
            }
            return None;
        }
        Some(StrRec { bytes: sink.bytes, idx })
    }

    fn index(&self) -> (r: u32) {
        self.idx
    }

    fn set_index(&mut self, i: u32) {
        self.idx = i;
    }

    open spec fn room_for(word: u32) -> bool {
        word == 0
    }

    open spec fn has_value() -> bool {
        false
    }

    fn keep(&mut self, word: u32) -> (r: bool) {
        word == 0
    }

    fn value(&self) -> (r: Option<(u64, u32)>) {
        None
    }
}

} // verus!
