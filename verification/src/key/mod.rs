//! The `Key` trait and its implementations for the built-in key types.
//!
//! A key is anything whose order can be expressed as a sequence of leaves, each
//! either an order-preserving unsigned integer of a fixed width or a byte
//! string. The sort reads the leaves once per element, packs them into a small
//! record and never calls back into the key type again; the natural order
//! `Key::cmp_key` is used only by the small-input sort, the pass that recognises
//! ordered input, and the fallbacks, so every path orders alike.
use crate::key::slots::{capped, kinds_of, SlotTree};
use crate::order::total_preorder;
use crate::shape::{MAX_PARTS, Part, Shape};
use crate::text::{bytes_le, bytes_le_from, bytes_order_total};
use core::cmp::Ordering;
use vstd::arithmetic::power2::pow2;
use vstd::arithmetic::logarithm::log;
use vstd::prelude::*;

pub mod array;
pub mod compose;
pub mod laws;
pub mod number;
pub mod slots;
pub mod string;

verus! {

// ---- the order of keys ---------------------------------------------------------------------------

/// What one leaf of a key holds.
pub enum LeafModel {
    /// An order-preserving unsigned value below two to the `bits`.
    Fixed {
        /// The width.
        bits: u8,
        /// In descending order.
        desc: bool,
        /// The value.
        radix: u64,
    },
    /// A byte string.
    Bytes {
        /// In descending order.
        desc: bool,
        /// The bytes.
        text: Seq<u8>,
    },
}

/// The value fits the width.
pub open spec fn radix_fits(radix: u64, bits: u8) -> bool {
    1 <= bits <= 64 && radix < pow2(bits as nat)
}

/// The shape of a leaf.
pub open spec fn part_of(l: LeafModel) -> Part {
    match l {
        LeafModel::Fixed { bits, desc, radix } => Part { bytes: false, bits, desc },
        LeafModel::Bytes { desc, text } => Part { bytes: true, bits: 0, desc },
    }
}

/// A number for the direction of a leaf.
pub open spec fn way(desc: bool) -> int {
    if desc {
        1
    } else {
        0
    }
}

/// The order of leaves. Leaves of one key type have the same shape in each
/// place; that leaves of different shapes are ordered too, by their shape, makes
/// the order total.
pub open spec fn leaf_le(x: LeafModel, y: LeafModel) -> bool {
    match (x, y) {
        (LeafModel::Fixed { bits: b, desc: d, radix: r }, LeafModel::Fixed { bits: c, desc: e, radix: s }) => if b != c {
            b < c
        } else if d != e {
            way(d) < way(e)
        } else if d {
            s <= r
        } else {
            r <= s
        },
        (LeafModel::Bytes { desc: d, text: t }, LeafModel::Bytes { desc: e, text: u }) => if d != e {
            way(d) < way(e)
        } else if d {
            bytes_le(u, t)
        } else {
            bytes_le(t, u)
        },
        (LeafModel::Fixed { .. }, LeafModel::Bytes { .. }) => true,
        (LeafModel::Bytes { .. }, LeafModel::Fixed { .. }) => false,
    }
}

/// The order of keys from leaf `i` on: the first leaf that differs decides.
pub open spec fn key_le_from(a: Seq<LeafModel>, b: Seq<LeafModel>, i: int) -> bool
    decreases a.len() - i,
{
    if i >= a.len() {
        true
    } else if i >= b.len() {
        false
    } else if a[i] != b[i] {
        leaf_le(a[i], b[i])
    } else {
        key_le_from(a, b, i + 1)
    }
}

/// The order of keys.
pub open spec fn key_le(a: Seq<LeafModel>, b: Seq<LeafModel>) -> bool {
    key_le_from(a, b, 0)
}

/// The order of elements by the keys that `f` gives them.
pub open spec fn by_leaves<T>(f: spec_fn(T) -> Seq<LeafModel>) -> spec_fn(T, T) -> bool {
    |x: T, y: T| key_le(f(x), f(y))
}

/// How two keys compare.
pub open spec fn key_ordering(a: Seq<LeafModel>, b: Seq<LeafModel>) -> Ordering {
    if a == b {
        Ordering::Equal
    } else if key_le(a, b) {
        Ordering::Less
    } else {
        Ordering::Greater
    }
}

proof fn lemma_bytes_trans(a: Seq<u8>, b: Seq<u8>, c: Seq<u8>, i: int)
    requires
        0 <= i,
        bytes_le_from(a, b, i),
        bytes_le_from(b, c, i),
    ensures
        bytes_le_from(a, c, i),
    decreases a.len() - i,
{
    if i < a.len() && i < b.len() && i < c.len() && a[i] == b[i] && b[i] == c[i] {
        lemma_bytes_trans(a, b, c, i + 1);
    }
}

/// The order of leaves is a total order.
proof fn lemma_leaf_total(x: LeafModel, y: LeafModel)
    ensures
        leaf_le(x, y) || leaf_le(y, x),
        leaf_le(x, y) && leaf_le(y, x) <==> x == y,
{
    if let (LeafModel::Bytes { desc: d, text: t }, LeafModel::Bytes { desc: e, text: u }) = (x, y) {
        bytes_order_total(t, u, 0);
    }
}

proof fn lemma_leaf_trans(x: LeafModel, y: LeafModel, z: LeafModel)
    requires
        leaf_le(x, y),
        leaf_le(y, z),
    ensures
        leaf_le(x, z),
{
    if let (LeafModel::Bytes { text: t, .. }, LeafModel::Bytes { text: u, .. }, LeafModel::Bytes { text: v, .. }) = (x, y, z) {
        if bytes_le(t, u) && bytes_le(u, v) {
            lemma_bytes_trans(t, u, v, 0);
        }
        if bytes_le(v, u) && bytes_le(u, t) {
            lemma_bytes_trans(v, u, t, 0);
        }
    }
}

proof fn lemma_key_total(a: Seq<LeafModel>, b: Seq<LeafModel>, i: int)
    requires
        0 <= i <= a.len(),
        i <= b.len(),
        forall|k: int| 0 <= k < i ==> #[trigger] a[k] == b[k],
    ensures
        key_le_from(a, b, i) || key_le_from(b, a, i),
        key_le_from(a, b, i) && key_le_from(b, a, i) <==> a == b,
    decreases a.len() - i,
{
    if i < a.len() && i < b.len() {
        if a[i] == b[i] {
            lemma_key_total(a, b, i + 1);
        } else {
            lemma_leaf_total(a[i], b[i]);
        }
    } else if i == a.len() && i == b.len() {
        assert(a =~= b);
    }
}

proof fn lemma_key_trans(a: Seq<LeafModel>, b: Seq<LeafModel>, c: Seq<LeafModel>, i: int)
    requires
        0 <= i,
        key_le_from(a, b, i),
        key_le_from(b, c, i),
    ensures
        key_le_from(a, c, i),
    decreases a.len() - i,
{
    if i < a.len() && i < b.len() && i < c.len() {
        if a[i] == b[i] && b[i] == c[i] {
            lemma_key_trans(a, b, c, i + 1);
        } else {
            lemma_leaf_total(a[i], b[i]);
            lemma_leaf_total(b[i], c[i]);
            lemma_leaf_total(a[i], c[i]);
            lemma_leaf_trans(a[i], b[i], c[i]);
            if a[i] == c[i] {
                lemma_leaf_trans(b[i], c[i], b[i]);
            }
        }
    }
}

/// The order of keys is total, transitive, and ties only equal keys.
pub proof fn key_order_total(a: Seq<LeafModel>, b: Seq<LeafModel>)
    ensures
        key_le(a, b) || key_le(b, a),
        key_le(a, b) && key_le(b, a) <==> a == b,
{
    lemma_key_total(a, b, 0);
}

/// The order by keys is a total preorder of the elements.
pub proof fn lemma_by_leaves_total<T>(f: spec_fn(T) -> Seq<LeafModel>)
    ensures
        total_preorder(by_leaves(f)),
{
    let le = by_leaves(f);
    assert forall|x: T, y: T| #[trigger] le(x, y) || le(y, x) by {
        key_order_total(f(x), f(y));
    }
    assert forall|x: T, y: T, z: T| #[trigger] le(x, y) && #[trigger] le(y, z) implies le(x, z) by {
        lemma_key_trans(f(x), f(y), f(z), 0);
    }
}

/// Keys that agree below a leaf are ordered from there on.
pub proof fn lemma_key_skip(a: Seq<LeafModel>, b: Seq<LeafModel>, i: int, j: int)
    requires
        0 <= i <= j <= a.len(),
        j <= b.len(),
        forall|k: int| i <= k < j ==> #[trigger] a[k] == b[k],
    ensures
        key_le_from(a, b, i) == key_le_from(a, b, j),
    decreases j - i,
{
    if i < j {
        assert(a[i] == b[i]);
        lemma_key_skip(a, b, i + 1, j);
    }
}

/// The first difference in the first part decides, the second part otherwise.
pub proof fn lemma_key_add(a: Seq<LeafModel>, x: Seq<LeafModel>, b: Seq<LeafModel>, y: Seq<LeafModel>)
    requires
        a.len() == b.len(),
    ensures
        a == b ==> key_le(a + x, b + y) == key_le(x, y),
        a != b ==> key_le(a + x, b + y) == key_le(a, b),
        a + x == b + y <==> a == b && x == y,
{
    if a == b {
        lemma_key_skip(a + x, b + y, 0, a.len() as int);
        lemma_key_shift(a, x, y, 0);
    } else {
        lemma_key_prefix(a, x, b, y, 0);
    }
    if a + x == b + y {
        assert(a =~= (a + x).take(a.len() as int));
        assert(b =~= (b + y).take(a.len() as int));
        assert(x =~= (a + x).skip(a.len() as int));
        assert(y =~= (b + y).skip(a.len() as int));
    }
}

proof fn lemma_key_shift(a: Seq<LeafModel>, x: Seq<LeafModel>, y: Seq<LeafModel>, i: int)
    requires
        0 <= i,
    ensures
        key_le_from(a + x, a + y, a.len() + i) == key_le_from(x, y, i),
    decreases x.len() - i,
{
    if i < x.len() && i < y.len() {
        lemma_key_shift(a, x, y, i + 1);
    }
}

proof fn lemma_key_prefix(a: Seq<LeafModel>, x: Seq<LeafModel>, b: Seq<LeafModel>, y: Seq<LeafModel>, i: int)
    requires
        a.len() == b.len(),
        0 <= i <= a.len(),
        a != b,
        forall|k: int| 0 <= k < i ==> #[trigger] a[k] == b[k],
    ensures
        key_le_from(a + x, b + y, i) == key_le_from(a, b, i),
    decreases a.len() - i,
{
    if i == a.len() {
        assert(a =~= b);
    } else if a[i] == b[i] {
        lemma_key_prefix(a, x, b, y, i + 1);
    }
}

// ---- shapes --------------------------------------------------------------------------------------

/// The leaves have the given shape, and every value fits its width.
pub open spec fn shaped(s: Seq<LeafModel>, parts: Seq<Part>) -> bool {
    &&& s.len() == parts.len()
    &&& forall|i: int| 0 <= i < s.len() ==> part_of(#[trigger] s[i]) == parts[i]
    &&& forall|i: int| 0 <= i < s.len() ==> ((#[trigger] s[i]) matches LeafModel::Fixed { bits, desc, radix } ==> radix_fits(radix, bits))
}

/// The leaf in the other direction.
pub open spec fn reversed_leaf(l: LeafModel) -> LeafModel {
    match l {
        LeafModel::Fixed { bits, desc, radix } => LeafModel::Fixed { bits, desc: !desc, radix },
        LeafModel::Bytes { desc, text } => LeafModel::Bytes { desc: !desc, text },
    }
}

/// Every leaf in the other direction, where that is asked for.
pub open spec fn turned(s: Seq<LeafModel>, flip: bool) -> Seq<LeafModel> {
    if flip {
        s.map_values(|l: LeafModel| reversed_leaf(l))
    } else {
        s
    }
}

/// Reversing every leaf reverses the order of keys of one shape.
pub proof fn reversed_order(a: Seq<LeafModel>, b: Seq<LeafModel>, parts: Seq<Part>)
    requires
        shaped(a, parts),
        shaped(b, parts),
    ensures
        key_le(turned(a, true), turned(b, true)) == key_le(b, a),
        turned(a, true) == turned(b, true) <==> a == b,
{
    lemma_reversed_from(a, b, parts, 0);
    if turned(a, true) == turned(b, true) {
        assert forall|i: int| 0 <= i < a.len() implies a[i] == b[i] by {
            assert(turned(a, true)[i] == turned(b, true)[i]);
            assert(reversed_leaf(reversed_leaf(a[i])) == a[i]);
            assert(reversed_leaf(reversed_leaf(b[i])) == b[i]);
        }
        assert(a =~= b);
    }
}

proof fn lemma_reversed_from(a: Seq<LeafModel>, b: Seq<LeafModel>, parts: Seq<Part>, i: int)
    requires
        0 <= i,
        shaped(a, parts),
        shaped(b, parts),
    ensures
        key_le_from(turned(a, true), turned(b, true), i) == key_le_from(b, a, i),
    decreases a.len() - i,
{
    if i < a.len() {
        assert(part_of(a[i]) == parts[i] && part_of(b[i]) == parts[i]);
        assert(reversed_leaf(reversed_leaf(a[i])) == a[i]);
        assert(reversed_leaf(reversed_leaf(b[i])) == b[i]);
        lemma_reversed_from(a, b, parts, i + 1);
    }
}

pub proof fn lemma_turned_add(a: Seq<LeafModel>, b: Seq<LeafModel>, flip: bool)
    ensures
        turned(a + b, flip) == turned(a, flip) + turned(b, flip),
{
    assert(turned(a + b, flip) =~= turned(a, flip) + turned(b, flip));
}

pub proof fn lemma_shaped_add(a: Seq<LeafModel>, p: Seq<Part>, b: Seq<LeafModel>, q: Seq<Part>)
    requires
        shaped(a, p),
        shaped(b, q),
    ensures
        shaped(a + b, p + q),
{
}


// ---- keys ----------------------------------------------------------------------------------------

/// Receives the leaves of a key, in order. Implemented by the record builders; a
/// user does not implement it.
pub trait PartSink<'a> {
    /// The leaves received so far.
    spec fn log(&self) -> Seq<LeafModel>;

    /// The sink is in order.
    spec fn ready(&self) -> bool;

    /// A fixed leaf: `radix` is an order-preserving unsigned value below two to
    /// the `bits`; `desc` asks for the reversed order.
    fn fixed(&mut self, radix: u64, bits: u8, desc: bool)
        requires
            old(self).ready(),
            radix_fits(radix, bits),
        ensures
            final(self).ready(),
            final(self).log() == old(self).log().push(LeafModel::Fixed { bits, desc, radix }),
    ;

    /// A byte-string leaf, compared lexicographically as unsigned bytes with a
    /// shorter prefix first; `desc` asks for the reversed order.
    fn bytes(&mut self, b: &'a [u8], desc: bool)
        requires
            old(self).ready(),
        ensures
            final(self).ready(),
            final(self).log() == old(self).log().push(LeafModel::Bytes { desc, text: b@ }),
    ;
}

/// A sortable key.
///
/// Implemented for every integer, `bool`, `char`, the bit patterns of floating
/// point numbers, `str`, `String`, `[u8]`, `Vec<u8>`, references to keys, boxed
/// keys, tuples of up to twelve keys, arrays of keys, and `Desc`.
pub trait Key {
    /// The inline storage of a composite record of this key: `u64` for a fixed
    /// leaf, `BytesSlot` for a string leaf, nested pairs for composites.
    type Slots<'a>: SlotTree<'a>;

    /// The shape of the leaves.
    spec fn parts() -> Seq<Part>;

    /// The leaves.
    spec fn leaves(&self) -> Seq<LeafModel>;

    /// A word beside the leaves that a key is written back with.
    open spec fn spare_word(&self) -> u32 {
        0
    }

    /// The leaves have the shape of the type.
    proof fn leaves_shaped(&self)
        ensures
            shaped(self.leaves(), Self::parts()),
    ;

    /// So has the storage.
    proof fn slots_shaped<'a>()
        ensures
            Self::Slots::<'a>::kinds() == capped(kinds_of(Self::parts())),
    ;

    /// The leaves of this key type.
    fn shape() -> (r: Shape)
        ensures
            r.n <= MAX_PARTS + 1,
            r.describes(Self::parts()),
    ;

    /// The number of leaves, `MAX_PARTS` if there are more.
    fn leaf_count() -> (r: usize)
        ensures
            r == capped(Self::parts()).len(),
    ;

    /// Whether leaf `p` sorts in descending order.
    fn descending(p: usize) -> (r: bool)
        requires
            p < capped(Self::parts()).len(),
        ensures
            r == Self::parts()[p as int].desc,
    ;

    /// Writes the leaves, in order, each reversed if `flip` asks for it.
    fn write_parts<'a, S: PartSink<'a>>(&'a self, flip: bool, sink: &mut S)
        requires
            old(sink).ready(),
        ensures
            final(sink).ready(),
            final(sink).log() == old(sink).log() + turned(self.leaves(), flip),
    ;

    /// The natural order: the order the leaves define.
    fn cmp_key(&self, other: &Self) -> (r: Ordering)
        ensures
            r == key_ordering(self.leaves(), other.leaves()),
    ;

    /// The spare word of the key.
    fn spare(&self) -> (r: u32)
        ensures
            r == self.spare_word(),
    ;

    /// Whether a key is given back by its radix value and its spare word.
    open spec fn exact_fixed() -> bool {
        false
    }

    /// The key with the given radix value and spare word, where these give a key
    /// of this type back.
    fn from_radix(radix: u64, spare: u32) -> (r: Option<Self>) where Self: Sized
        ensures
            Self::exact_fixed() ==> forall|x: Self|
                (#[trigger] x.leaves()).len() == 1 && x.spare_word() == spare && x.leaves()[0] == (LeafModel::Fixed { bits: Self::parts()[0].bits, desc: Self::parts()[0].desc, radix }) ==> r == Some(x),
            !Self::exact_fixed() ==> r is None,
    ;
}

} // verus!
