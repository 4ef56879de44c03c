//! The inline storage of a composite record: a slot of its own per leaf, nested
//! in the structure of the key type so the size is known at compile time.
use crate::shape::{MAX_PARTS, Part};
use vstd::prelude::*;

verus! {

/// A leaf of a composite record.
#[derive(Clone, Copy, Debug)]
pub enum Leaf<'a> {
    /// A fixed part, as its 64-bit radix value.
    Fixed(u64),
    /// A byte string.
    Bytes(&'a [u8]),
}

/// What a slot holds.
pub enum SlotModel {
    /// A radix value.
    Fixed(u64),
    /// Bytes.
    Bytes(Seq<u8>),
}

/// The longest byte string that a slot holds.
pub const SLOT_MAX: u64 = 0xFFFF_FFFF;

/// What a slot keeps of a byte string.
pub open spec fn kept(s: Seq<u8>) -> Seq<u8> {
    if s.len() <= SLOT_MAX {
        s
    } else {
        s.take(SLOT_MAX as int)
    }
}

/// What a slot keeps of a leaf.
pub open spec fn slot_of(l: Leaf) -> SlotModel {
    match l {
        Leaf::Fixed(v) => SlotModel::Fixed(v),
        Leaf::Bytes(b) => SlotModel::Bytes(kept(b@)),
    }
}

/// The first `MAX_PARTS` of a sequence.
pub open spec fn capped<A>(s: Seq<A>) -> Seq<A> {
    if s.len() <= MAX_PARTS {
        s
    } else {
        s.take(MAX_PARTS as int)
    }
}

/// Which leaves are byte strings.
pub open spec fn kinds_of(parts: Seq<Part>) -> Seq<bool> {
    parts.map_values(|p: Part| p.bytes)
}

/// Capping a sum needs its first `MAX_PARTS` only.
pub proof fn lemma_capped_add<A>(a: Seq<A>, b: Seq<A>)
    ensures
        capped(capped(a) + capped(b)) == capped(a + b),
{
    assert(capped(capped(a) + capped(b)) =~= capped(a + b));
}

pub proof fn lemma_kinds_add(a: Seq<Part>, b: Seq<Part>)
    ensures
        kinds_of(a + b) == kinds_of(a) + kinds_of(b),
        capped(capped(kinds_of(a)) + capped(kinds_of(b))) == capped(kinds_of(a + b)),
{
    assert(kinds_of(a + b) =~= kinds_of(a) + kinds_of(b));
    lemma_capped_add(kinds_of(a), kinds_of(b));
}

/// The inline storage of a composite record. A key type has at most
/// `MAX_PARTS` leaves; there is no slot for a leaf beyond them.
pub trait SlotTree<'a>: Copy {
    /// Which slots are for byte strings.
    spec fn kinds() -> Seq<bool>;

    /// What the slots hold.
    spec fn slots(&self) -> Seq<SlotModel>;

    /// The slots are those of the type.
    proof fn slots_fit(&self)
        ensures
            self.slots().len() == Self::kinds().len() <= MAX_PARTS,
            forall|p: int| 0 <= p < self.slots().len() ==> (#[trigger] self.slots()[p] is Bytes) == Self::kinds()[p],
            forall|p: int| 0 <= p < self.slots().len() ==> ((#[trigger] self.slots()[p]) matches SlotModel::Bytes(t) ==> t.len() <= SLOT_MAX),
    ;

    /// Number of leaves.
    fn count() -> (r: usize)
        ensures
            r == Self::kinds().len() <= MAX_PARTS,
    ;

    /// All slots empty.
    fn zero() -> (r: Self)
        ensures
            forall|p: int| 0 <= p < r.slots().len() ==> #[trigger] r.slots()[p] == SlotModel::Fixed(0) || r.slots()[p] == SlotModel::Bytes(Seq::empty()),
    ;

    /// Leaf `p`, in key order.
    fn leaf(&self, p: usize) -> (r: Leaf<'a>)
        requires
            p < self.slots().len(),
        ensures
            slot_of(r) == self.slots()[p as int],
            r matches Leaf::Bytes(b) ==> b@.len() <= SLOT_MAX,
    ;

    /// Sets leaf `p`; a leaf of the other kind is passed over.
    fn set_leaf(&mut self, p: usize, v: Leaf<'a>)
        requires
            p < old(self).slots().len(),
        ensures
            final(self).slots() == if (v is Bytes) == (old(self).slots()[p as int] is Bytes) {
                old(self).slots().update(p as int, slot_of(v))
            } else {
                old(self).slots()
            },
    ;
}

impl<'a> SlotTree<'a> for u64 {
    open spec fn kinds() -> Seq<bool> {
        seq![false]
    }

    open spec fn slots(&self) -> Seq<SlotModel> {
        seq![SlotModel::Fixed(*self)]
    }

    proof fn slots_fit(&self) {
    }

    fn count() -> (r: usize) {
        1
    }

    fn zero() -> (r: Self) {
        0
    }

    fn leaf(&self, p: usize) -> (r: Leaf<'a>) {
        Leaf::Fixed(*self)
    }

    fn set_leaf(&mut self, p: usize, v: Leaf<'a>) {
        let ghost s = self.slots();
        match v {
            Leaf::Fixed(x) => {
                *self = x;
                assert(self.slots() =~= s.update(p as int, slot_of(v)));
            },
            Leaf::Bytes(_) => {},
        }
    }
}

/// One byte-string slot of a composite record.
#[derive(Clone, Copy, Debug)]
pub struct BytesSlot<'a> {
    /// The bytes.
    pub bytes: &'a [u8],
}

impl<'a> SlotTree<'a> for BytesSlot<'a> {
    open spec fn kinds() -> Seq<bool> {
        seq![true]
    }

    open spec fn slots(&self) -> Seq<SlotModel> {
        seq![SlotModel::Bytes(kept(self.bytes@))]
    }

    proof fn slots_fit(&self) {
    }

    fn count() -> (r: usize) {
        1
    }

    fn zero() -> (r: Self) {
        let none: &'a [u8] = &[];
        let r = BytesSlot { bytes: none };
        assert(kept(none@) =~= Seq::<u8>::empty());
        r
    }

    fn leaf(&self, p: usize) -> (r: Leaf<'a>) {
        let n: usize = self.bytes.len();
        if n as u64 <= SLOT_MAX {
            Leaf::Bytes(self.bytes)
        } else {
            let b: &'a [u8] = vstd::slice::slice_subrange(self.bytes, 0, SLOT_MAX as usize);
            assert(kept(b@) =~= kept(self.bytes@));
            Leaf::Bytes(b)
        }
    }

    fn set_leaf(&mut self, p: usize, v: Leaf<'a>) {
        let ghost s = self.slots();
        match v {
            Leaf::Bytes(b) => {
                self.bytes = b;
                assert(self.slots() =~= s.update(p as int, slot_of(v)));
            },
            Leaf::Fixed(_) => {},
        }
    }
}

/// No slot.
#[derive(Clone, Copy, Debug)]
pub struct NoSlot;

impl<'a> SlotTree<'a> for NoSlot {
    open spec fn kinds() -> Seq<bool> {
        Seq::empty()
    }

    open spec fn slots(&self) -> Seq<SlotModel> {
        Seq::empty()
    }

    proof fn slots_fit(&self) {
    }

    fn count() -> (r: usize) {
        0
    }

    fn zero() -> (r: Self) {
        NoSlot
    }

    fn leaf(&self, p: usize) -> (r: Leaf<'a>) {
        Leaf::Fixed(0)
    }

    fn set_leaf(&mut self, p: usize, v: Leaf<'a>) {
    }
}

/// The slots of one key before those of another.
#[derive(Debug)]
pub struct SlotPair<A, B>(pub A, pub B);

impl<A: Copy, B: Copy> Clone for SlotPair<A, B> {
    fn clone(&self) -> (r: Self)
        ensures
            r == *self,
    {
        SlotPair(self.0, self.1)
    }
}

impl<A: Copy, B: Copy> Copy for SlotPair<A, B> {

}

impl<'a, A: SlotTree<'a>, B: SlotTree<'a>> SlotTree<'a> for SlotPair<A, B> {
    open spec fn kinds() -> Seq<bool> {
        capped(A::kinds() + B::kinds())
    }

    open spec fn slots(&self) -> Seq<SlotModel> {
        capped(self.0.slots() + self.1.slots())
    }

    proof fn slots_fit(&self) {
        self.0.slots_fit();
        self.1.slots_fit();
        let n = self.0.slots().len();
        assert forall|p: int| 0 <= p < self.slots().len() implies (#[trigger] self.slots()[p] is Bytes) == Self::kinds()[p] && (self.slots()[p] matches SlotModel::Bytes(t) ==> t.len()
            <= SLOT_MAX) by {
            if p < n {
                assert(self.slots()[p] == self.0.slots()[p]);
            } else {
                assert(self.slots()[p] == self.1.slots()[p - n]);
            }
        }
    }

    fn count() -> (r: usize) {
        let n: usize = A::count() + B::count();
        if n > MAX_PARTS {
            MAX_PARTS
        } else {
            n
        }
    }

    fn zero() -> (r: Self) {
        let a: A = A::zero();
        let b: B = B::zero();
        let r = SlotPair(a, b);
        proof {
            assert forall|p: int| 0 <= p < r.slots().len() implies #[trigger] r.slots()[p] == SlotModel::Fixed(0) || r.slots()[p] == SlotModel::Bytes(Seq::empty()) by {
                if p < a.slots().len() {
                    assert(r.slots()[p] == a.slots()[p]);
                } else {
                    assert(r.slots()[p] == b.slots()[p - a.slots().len()]);
                }
            }
        }
        r
    }

    fn leaf(&self, p: usize) -> (r: Leaf<'a>) {
        let n: usize = A::count();
        proof {
            self.0.slots_fit();
        }
        if p < n {
            self.0.leaf(p)
        } else {
            self.1.leaf(p - n)
        }
    }

    fn set_leaf(&mut self, p: usize, v: Leaf<'a>) {
        let n: usize = A::count();
        let ghost s = self.slots();
        proof {
            self.0.slots_fit();
        }
        if p < n {
            self.0.set_leaf(p, v);
        } else {
            self.1.set_leaf(p - n, v);
        }
        proof {
            self.0.slots_fit();
            if (v is Bytes) == (s[p as int] is Bytes) {
                assert(self.slots() =~= s.update(p as int, slot_of(v)));
            } else {
                assert(self.slots() =~= s);
            }
        }
    }
}

/// The kinds of a pair.
pub proof fn lemma_pair_kinds<'a, A: SlotTree<'a>, B: SlotTree<'a>>()
    ensures
        SlotPair::<A, B>::kinds() == capped(A::kinds() + B::kinds()),
{
}

} // verus!
