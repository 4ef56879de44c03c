//! Keys made of keys: references, boxes, reversed keys, tuples and arrays.
use crate::key::{
    key_order_total, key_ordering, lemma_key_add, lemma_shaped_add, lemma_turned_add, part_of,
    radix_fits, reversed_leaf, reversed_order, turned, Key, LeafModel, PartSink,
};
use crate::key::slots::{kinds_of, lemma_kinds_add, lemma_pair_kinds, SlotPair};
use crate::shape::{reversed_parts, MAX_PARTS, Part, Shape};
use core::cmp::Ordering;
use std::rc::Rc;
use std::sync::Arc;
use vstd::prelude::*;

verus! {

impl<K: Key + ?Sized> Key for &K {
    type Slots<'a> = K::Slots<'a>;

    open spec fn parts() -> Seq<Part> {
        K::parts()
    }

    open spec fn leaves(&self) -> Seq<LeafModel> {
        (**self).leaves()
    }

    proof fn leaves_shaped(&self) {
        (**self).leaves_shaped();
    }

    proof fn slots_shaped<'a>() {
        K::slots_shaped();
    }

    fn shape() -> (r: Shape) {
        K::shape()
    }

    fn leaf_count() -> (r: usize) {
        K::leaf_count()
    }

    fn descending(p: usize) -> (r: bool) {
        K::descending(p)
    }

    fn write_parts<'a, S: PartSink<'a>>(&'a self, flip: bool, sink: &mut S) {
        (**self).write_parts(flip, sink);
    }

    fn cmp_key(&self, other: &Self) -> (r: Ordering) {
        (**self).cmp_key(&**other)
    }

    fn spare(&self) -> (r: u32) {
        0
    }

    fn from_radix(radix: u64, spare: u32) -> (r: Option<Self>) {
        None
    }
}

impl<K: Key + ?Sized> Key for &mut K {
    type Slots<'a> = K::Slots<'a>;

    open spec fn parts() -> Seq<Part> {
        K::parts()
    }

    open spec fn leaves(&self) -> Seq<LeafModel> {
        (**self).leaves()
    }

    proof fn leaves_shaped(&self) {
        (**self).leaves_shaped();
    }

    proof fn slots_shaped<'a>() {
        K::slots_shaped();
    }

    fn shape() -> (r: Shape) {
        K::shape()
    }

    fn leaf_count() -> (r: usize) {
        K::leaf_count()
    }

    fn descending(p: usize) -> (r: bool) {
        K::descending(p)
    }

    fn write_parts<'a, S: PartSink<'a>>(&'a self, flip: bool, sink: &mut S) {
        (**self).write_parts(flip, sink);
    }

    fn cmp_key(&self, other: &Self) -> (r: Ordering) {
        (**self).cmp_key(&**other)
    }

    fn spare(&self) -> (r: u32) {
        0
    }

    fn from_radix(radix: u64, spare: u32) -> (r: Option<Self>) {
        None
    }
}

impl<K: Key + ?Sized> Key for Box<K> {
    type Slots<'a> = K::Slots<'a>;

    open spec fn parts() -> Seq<Part> {
        K::parts()
    }

    open spec fn leaves(&self) -> Seq<LeafModel> {
        (**self).leaves()
    }

    proof fn leaves_shaped(&self) {
        (**self).leaves_shaped();
    }

    proof fn slots_shaped<'a>() {
        K::slots_shaped();
    }

    fn shape() -> (r: Shape) {
        K::shape()
    }

    fn leaf_count() -> (r: usize) {
        K::leaf_count()
    }

    fn descending(p: usize) -> (r: bool) {
        K::descending(p)
    }

    fn write_parts<'a, S: PartSink<'a>>(&'a self, flip: bool, sink: &mut S) {
        (**self).write_parts(flip, sink);
    }

    fn cmp_key(&self, other: &Self) -> (r: Ordering) {
        (**self).cmp_key(&**other)
    }

    fn spare(&self) -> (r: u32) {
        0
    }

    fn from_radix(radix: u64, spare: u32) -> (r: Option<Self>) {
        None
    }
}

impl<K: Key + ?Sized> Key for Rc<K> {
    type Slots<'a> = K::Slots<'a>;

    open spec fn parts() -> Seq<Part> {
        K::parts()
    }

    open spec fn leaves(&self) -> Seq<LeafModel> {
        (**self).leaves()
    }

    proof fn leaves_shaped(&self) {
        (**self).leaves_shaped();
    }

    proof fn slots_shaped<'a>() {
        K::slots_shaped();
    }

    fn shape() -> (r: Shape) {
        K::shape()
    }

    fn leaf_count() -> (r: usize) {
        K::leaf_count()
    }

    fn descending(p: usize) -> (r: bool) {
        K::descending(p)
    }

    fn write_parts<'a, S: PartSink<'a>>(&'a self, flip: bool, sink: &mut S) {
        (**self).write_parts(flip, sink);
    }

    fn cmp_key(&self, other: &Self) -> (r: Ordering) {
        (**self).cmp_key(&**other)
    }

    fn spare(&self) -> (r: u32) {
        0
    }

    fn from_radix(radix: u64, spare: u32) -> (r: Option<Self>) {
        None
    }
}

impl<K: Key + ?Sized> Key for Arc<K> {
    type Slots<'a> = K::Slots<'a>;

    open spec fn parts() -> Seq<Part> {
        K::parts()
    }

    open spec fn leaves(&self) -> Seq<LeafModel> {
        (**self).leaves()
    }

    proof fn leaves_shaped(&self) {
        (**self).leaves_shaped();
    }

    proof fn slots_shaped<'a>() {
        K::slots_shaped();
    }

    fn shape() -> (r: Shape) {
        K::shape()
    }

    fn leaf_count() -> (r: usize) {
        K::leaf_count()
    }

    fn descending(p: usize) -> (r: bool) {
        K::descending(p)
    }

    fn write_parts<'a, S: PartSink<'a>>(&'a self, flip: bool, sink: &mut S) {
        (**self).write_parts(flip, sink);
    }

    fn cmp_key(&self, other: &Self) -> (r: Ordering) {
        (**self).cmp_key(&**other)
    }

    fn spare(&self) -> (r: u32) {
        0
    }

    fn from_radix(radix: u64, spare: u32) -> (r: Option<Self>) {
        None
    }
}

/// Reverses the order of a key.
#[derive(Debug, PartialEq, Eq)]
pub struct Desc<K>(pub K);

impl<K: Clone> Clone for Desc<K> {
    fn clone(&self) -> (r: Self)
        ensures
            cloned::<K>(self.0, r.0),
    {
        Desc(self.0.clone())
    }
}

impl<K: Copy> Copy for Desc<K> {

}

/// Wraps a key so that it sorts in descending order.
pub fn desc<K: Key>(k: K) -> (r: Desc<K>)
    ensures
        r.0 == k,
        r.leaves() == turned(k.leaves(), true),
{
    Desc(k)
}

proof fn lemma_turned_twice(s: Seq<LeafModel>, flip: bool)
    ensures
        turned(turned(s, true), flip) == turned(s, !flip),
{
    assert forall|i: int| 0 <= i < s.len() implies reversed_leaf(reversed_leaf(#[trigger] s[i])) == s[i] by {}
    assert(turned(turned(s, true), flip) =~= turned(s, !flip));
}

impl<K: Key> Key for Desc<K> {
    type Slots<'a> = K::Slots<'a>;

    open spec fn parts() -> Seq<Part> {
        reversed_parts(K::parts())
    }

    open spec fn leaves(&self) -> Seq<LeafModel> {
        turned(self.0.leaves(), true)
    }

    proof fn leaves_shaped(&self) {
        self.0.leaves_shaped();
        let s = self.0.leaves();
        let p = K::parts();
        assert forall|i: int| 0 <= i < s.len() implies part_of(#[trigger] turned(s, true)[i]) == reversed_parts(p)[i] by {
            assert(part_of(s[i]) == p[i]);
        }
        assert forall|i: int| 0 <= i < s.len() implies ((#[trigger] turned(s, true)[i]) matches LeafModel::Fixed { bits, desc, radix } ==> radix_fits(radix, bits)) by {
            assert(s[i] matches LeafModel::Fixed { bits, desc, radix } ==> radix_fits(radix, bits));
        }
    }

    proof fn slots_shaped<'a>() {
        K::slots_shaped();
        assert(kinds_of(reversed_parts(K::parts())) =~= kinds_of(K::parts()));
    }

    fn shape() -> (r: Shape) {
        K::shape().reversed()
    }

    fn leaf_count() -> (r: usize) {
        K::leaf_count()
    }

    fn descending(p: usize) -> (r: bool) {
        !K::descending(p)
    }

    fn write_parts<'a, S: PartSink<'a>>(&'a self, flip: bool, sink: &mut S) {
        proof {
            lemma_turned_twice(self.0.leaves(), flip);
        }
        self.0.write_parts(!flip, sink);
    }

    fn cmp_key(&self, other: &Self) -> (r: Ordering) {
        proof {
            self.0.leaves_shaped();
            other.0.leaves_shaped();
            reversed_order(self.0.leaves(), other.0.leaves(), K::parts());
            key_order_total(self.0.leaves(), other.0.leaves());
        }
        other.0.cmp_key(&self.0)
    }

    fn spare(&self) -> (r: u32) {
        0
    }

    fn from_radix(radix: u64, spare: u32) -> (r: Option<Self>) {
        None
    }
}

// ---- tuples --------------------------------------------------------------------------------------

proof fn lemma_log_add(l: Seq<LeafModel>, x: Seq<LeafModel>, y: Seq<LeafModel>)
    ensures
        (l + x) + y == l + (x + y),
{
    assert((l + x) + y =~= l + (x + y));
}

/// How a key of two parts compares: the first part decides, the second where
/// the first ties.
proof fn lemma_pair_ordering(a: Seq<LeafModel>, x: Seq<LeafModel>, b: Seq<LeafModel>, y: Seq<LeafModel>)
    requires
        a.len() == b.len(),
    ensures
        a == b ==> key_ordering(a + x, b + y) == key_ordering(x, y),
        a != b ==> key_ordering(a + x, b + y) == key_ordering(a, b),
{
    lemma_key_add(a, x, b, y);
}

impl<A: Key> Key for (A,) {
    type Slots<'a> = A::Slots<'a>;

    open spec fn parts() -> Seq<Part> {
        A::parts()
    }

    open spec fn leaves(&self) -> Seq<LeafModel> {
        self.0.leaves()
    }

    proof fn leaves_shaped(&self) {
        self.0.leaves_shaped();
    }

    proof fn slots_shaped<'a>() {
        A::slots_shaped();
    }

    fn shape() -> (r: Shape) {
        A::shape()
    }

    fn leaf_count() -> (r: usize) {
        A::leaf_count()
    }

    fn descending(p: usize) -> (r: bool) {
        A::descending(p)
    }

    fn write_parts<'a, S: PartSink<'a>>(&'a self, flip: bool, sink: &mut S) {
        self.0.write_parts(flip, sink);
    }

    fn cmp_key(&self, other: &Self) -> (r: Ordering) {
        self.0.cmp_key(&other.0)
    }

    fn spare(&self) -> (r: u32) {
        0
    }

    fn from_radix(radix: u64, spare: u32) -> (r: Option<Self>) {
        None
    }
}

impl<A: Key, B: Key> Key for (A, B) {
    type Slots<'a> = SlotPair<A::Slots<'a>, B::Slots<'a>>;

    open spec fn parts() -> Seq<Part> {
        A::parts() + B::parts()
    }

    open spec fn leaves(&self) -> Seq<LeafModel> {
        self.0.leaves() + self.1.leaves()
    }

    proof fn leaves_shaped(&self) {
        self.0.leaves_shaped();
        self.1.leaves_shaped();
        lemma_shaped_add(self.0.leaves(), A::parts(), self.1.leaves(), B::parts());
    }

    proof fn slots_shaped<'a>() {
        A::slots_shaped();
        B::slots_shaped();
        lemma_kinds_add(A::parts(), B::parts());
    }

    fn shape() -> (r: Shape) {
        let s = B::shape();
        Shape::concat(&A::shape(), &s)
    }

    fn leaf_count() -> (r: usize) {
        let n: usize = A::leaf_count() + <(B,) as Key>::leaf_count();
        if n > MAX_PARTS {
            MAX_PARTS
        } else {
            n
        }
    }

    fn descending(p: usize) -> (r: bool) {
        let n: usize = A::leaf_count();
        if p < n {
            A::descending(p)
        } else {
            <(B,) as Key>::descending(p - n)
        }
    }

    fn write_parts<'a, S: PartSink<'a>>(&'a self, flip: bool, sink: &mut S) {
        let ghost l0 = sink.log();
        self.0.write_parts(flip, sink);
        let ghost l1 = sink.log();
        self.1.write_parts(flip, sink);
        proof {
            lemma_turned_add(self.0.leaves(), self.1.leaves(), flip);
            lemma_log_add(l0, turned(self.0.leaves(), flip), turned(self.1.leaves(), flip));
        }
    }

    fn cmp_key(&self, other: &Self) -> (r: Ordering) {
        proof {
            self.0.leaves_shaped();
            other.0.leaves_shaped();
            lemma_pair_ordering(self.0.leaves(), self.1.leaves(), other.0.leaves(), other.1.leaves());
        }
        match self.0.cmp_key(&other.0) {
            Ordering::Equal => {},
            c => {
                return c;
            },
        }
        self.1.cmp_key(&other.1)
    }

    fn spare(&self) -> (r: u32) {
        0
    }

    fn from_radix(radix: u64, spare: u32) -> (r: Option<Self>) {
        None
    }
}

impl<A: Key, B: Key, C: Key> Key for (A, B, C) {
    type Slots<'a> = SlotPair<A::Slots<'a>, SlotPair<B::Slots<'a>, C::Slots<'a>>>;

    open spec fn parts() -> Seq<Part> {
        A::parts() + (B::parts() + C::parts())
    }

    open spec fn leaves(&self) -> Seq<LeafModel> {
        self.0.leaves() + (self.1.leaves() + self.2.leaves())
    }

    proof fn leaves_shaped(&self) {
        self.0.leaves_shaped();
        self.1.leaves_shaped();
        self.2.leaves_shaped();
        lemma_shaped_add(self.1.leaves(), B::parts(), self.2.leaves(), C::parts());
        lemma_shaped_add(self.0.leaves(), A::parts(), self.1.leaves() + self.2.leaves(), B::parts() + C::parts());
    }

    proof fn slots_shaped<'a>() {
        A::slots_shaped();
        B::slots_shaped();
        C::slots_shaped();
        lemma_kinds_add(B::parts(), C::parts());
        lemma_pair_kinds::<B::Slots<'a>, C::Slots<'a>>();
        lemma_kinds_add(A::parts(), B::parts() + C::parts());
        lemma_pair_kinds::<A::Slots<'a>, SlotPair<B::Slots<'a>, C::Slots<'a>>>();
    }

    fn shape() -> (r: Shape) {
        let s = C::shape();
        let s = Shape::concat(&B::shape(), &s);
        Shape::concat(&A::shape(), &s)
    }

    fn leaf_count() -> (r: usize) {
        let n: usize = A::leaf_count() + <(B, C) as Key>::leaf_count();
        if n > MAX_PARTS {
            MAX_PARTS
        } else {
            n
        }
    }

    fn descending(p: usize) -> (r: bool) {
        let n: usize = A::leaf_count();
        if p < n {
            A::descending(p)
        } else {
            <(B, C) as Key>::descending(p - n)
        }
    }

    fn write_parts<'a, S: PartSink<'a>>(&'a self, flip: bool, sink: &mut S) {
        let ghost l0 = sink.log();
        self.0.write_parts(flip, sink);
        let ghost l1 = sink.log();
        self.1.write_parts(flip, sink);
        let ghost l2 = sink.log();
        self.2.write_parts(flip, sink);
        proof {
            lemma_turned_add(self.1.leaves(), self.2.leaves(), flip);
            lemma_log_add(l1, turned(self.1.leaves(), flip), turned(self.2.leaves(), flip));
            lemma_turned_add(self.0.leaves(), self.1.leaves() + self.2.leaves(), flip);
            lemma_log_add(l0, turned(self.0.leaves(), flip), turned(self.1.leaves() + self.2.leaves(), flip));
        }
    }

    fn cmp_key(&self, other: &Self) -> (r: Ordering) {
        proof {
            self.0.leaves_shaped();
            other.0.leaves_shaped();
            lemma_pair_ordering(self.0.leaves(), self.1.leaves() + self.2.leaves(), other.0.leaves(), other.1.leaves() + other.2.leaves());
            self.1.leaves_shaped();
            other.1.leaves_shaped();
            lemma_pair_ordering(self.1.leaves(), self.2.leaves(), other.1.leaves(), other.2.leaves());
        }
        match self.0.cmp_key(&other.0) {
            Ordering::Equal => {},
            c => {
                return c;
            },
        }
        match self.1.cmp_key(&other.1) {
            Ordering::Equal => {},
            c => {
                return c;
            },
        }
        self.2.cmp_key(&other.2)
    }

    fn spare(&self) -> (r: u32) {
        0
    }

    fn from_radix(radix: u64, spare: u32) -> (r: Option<Self>) {
        None
    }
}

impl<A: Key, B: Key, C: Key, D: Key> Key for (A, B, C, D) {
    type Slots<'a> = SlotPair<A::Slots<'a>, SlotPair<B::Slots<'a>, SlotPair<C::Slots<'a>, D::Slots<'a>>>>;

    open spec fn parts() -> Seq<Part> {
        A::parts() + (B::parts() + (C::parts() + D::parts()))
    }

    open spec fn leaves(&self) -> Seq<LeafModel> {
        self.0.leaves() + (self.1.leaves() + (self.2.leaves() + self.3.leaves()))
    }

    proof fn leaves_shaped(&self) {
        self.0.leaves_shaped();
        self.1.leaves_shaped();
        self.2.leaves_shaped();
        self.3.leaves_shaped();
        lemma_shaped_add(self.2.leaves(), C::parts(), self.3.leaves(), D::parts());
        lemma_shaped_add(self.1.leaves(), B::parts(), self.2.leaves() + self.3.leaves(), C::parts() + D::parts());
        lemma_shaped_add(self.0.leaves(), A::parts(), self.1.leaves() + (self.2.leaves() + self.3.leaves()), B::parts() + (C::parts() + D::parts()));
    }

    proof fn slots_shaped<'a>() {
        A::slots_shaped();
        B::slots_shaped();
        C::slots_shaped();
        D::slots_shaped();
        lemma_kinds_add(C::parts(), D::parts());
        lemma_pair_kinds::<C::Slots<'a>, D::Slots<'a>>();
        lemma_kinds_add(B::parts(), C::parts() + D::parts());
        lemma_pair_kinds::<B::Slots<'a>, SlotPair<C::Slots<'a>, D::Slots<'a>>>();
        lemma_kinds_add(A::parts(), B::parts() + (C::parts() + D::parts()));
        lemma_pair_kinds::<A::Slots<'a>, SlotPair<B::Slots<'a>, SlotPair<C::Slots<'a>, D::Slots<'a>>>>();
    }

    fn shape() -> (r: Shape) {
        let s = D::shape();
        let s = Shape::concat(&C::shape(), &s);
        let s = Shape::concat(&B::shape(), &s);
        Shape::concat(&A::shape(), &s)
    }

    fn leaf_count() -> (r: usize) {
        let n: usize = A::leaf_count() + <(B, C, D) as Key>::leaf_count();
        if n > MAX_PARTS {
            MAX_PARTS
        } else {
            n
        }
    }

    fn descending(p: usize) -> (r: bool) {
        let n: usize = A::leaf_count();
        if p < n {
            A::descending(p)
        } else {
            <(B, C, D) as Key>::descending(p - n)
        }
    }

    fn write_parts<'a, S: PartSink<'a>>(&'a self, flip: bool, sink: &mut S) {
        let ghost l0 = sink.log();
        self.0.write_parts(flip, sink);
        let ghost l1 = sink.log();
        self.1.write_parts(flip, sink);
        let ghost l2 = sink.log();
        self.2.write_parts(flip, sink);
        let ghost l3 = sink.log();
        self.3.write_parts(flip, sink);
        proof {
            lemma_turned_add(self.2.leaves(), self.3.leaves(), flip);
            lemma_log_add(l2, turned(self.2.leaves(), flip), turned(self.3.leaves(), flip));
            lemma_turned_add(self.1.leaves(), self.2.leaves() + self.3.leaves(), flip);
            lemma_log_add(l1, turned(self.1.leaves(), flip), turned(self.2.leaves() + self.3.leaves(), flip));
            lemma_turned_add(self.0.leaves(), self.1.leaves() + (self.2.leaves() + self.3.leaves()), flip);
            lemma_log_add(l0, turned(self.0.leaves(), flip), turned(self.1.leaves() + (self.2.leaves() + self.3.leaves()), flip));
        }
    }

    fn cmp_key(&self, other: &Self) -> (r: Ordering) {
        proof {
            self.0.leaves_shaped();
            other.0.leaves_shaped();
            lemma_pair_ordering(self.0.leaves(), self.1.leaves() + (self.2.leaves() + self.3.leaves()), other.0.leaves(), other.1.leaves() + (other.2.leaves() + other.3.leaves()));
            self.1.leaves_shaped();
            other.1.leaves_shaped();
            lemma_pair_ordering(self.1.leaves(), self.2.leaves() + self.3.leaves(), other.1.leaves(), other.2.leaves() + other.3.leaves());
            self.2.leaves_shaped();
            other.2.leaves_shaped();
            lemma_pair_ordering(self.2.leaves(), self.3.leaves(), other.2.leaves(), other.3.leaves());
        }
        match self.0.cmp_key(&other.0) {
            Ordering::Equal => {},
            c => {
                return c;
            },
        }
        match self.1.cmp_key(&other.1) {
            Ordering::Equal => {},
            c => {
                return c;
            },
        }
        match self.2.cmp_key(&other.2) {
            Ordering::Equal => {},
            c => {
                return c;
            },
        }
        self.3.cmp_key(&other.3)
    }

    fn spare(&self) -> (r: u32) {
        0
    }

    fn from_radix(radix: u64, spare: u32) -> (r: Option<Self>) {
        None
    }
}

impl<A: Key, B: Key, C: Key, D: Key, E: Key> Key for (A, B, C, D, E) {
    type Slots<'a> = SlotPair<A::Slots<'a>, SlotPair<B::Slots<'a>, SlotPair<C::Slots<'a>, SlotPair<D::Slots<'a>, E::Slots<'a>>>>>;

    open spec fn parts() -> Seq<Part> {
        A::parts() + (B::parts() + (C::parts() + (D::parts() + E::parts())))
    }

    open spec fn leaves(&self) -> Seq<LeafModel> {
        self.0.leaves() + (self.1.leaves() + (self.2.leaves() + (self.3.leaves() + self.4.leaves())))
    }

    proof fn leaves_shaped(&self) {
        self.0.leaves_shaped();
        self.1.leaves_shaped();
        self.2.leaves_shaped();
        self.3.leaves_shaped();
        self.4.leaves_shaped();
        lemma_shaped_add(self.3.leaves(), D::parts(), self.4.leaves(), E::parts());
        lemma_shaped_add(self.2.leaves(), C::parts(), self.3.leaves() + self.4.leaves(), D::parts() + E::parts());
        lemma_shaped_add(self.1.leaves(), B::parts(), self.2.leaves() + (self.3.leaves() + self.4.leaves()), C::parts() + (D::parts() + E::parts()));
        lemma_shaped_add(self.0.leaves(), A::parts(), self.1.leaves() + (self.2.leaves() + (self.3.leaves() + self.4.leaves())), B::parts() + (C::parts() + (D::parts() + E::parts())));
    }

    proof fn slots_shaped<'a>() {
        A::slots_shaped();
        B::slots_shaped();
        C::slots_shaped();
        D::slots_shaped();
        E::slots_shaped();
        lemma_kinds_add(D::parts(), E::parts());
        lemma_pair_kinds::<D::Slots<'a>, E::Slots<'a>>();
        lemma_kinds_add(C::parts(), D::parts() + E::parts());
        lemma_pair_kinds::<C::Slots<'a>, SlotPair<D::Slots<'a>, E::Slots<'a>>>();
        lemma_kinds_add(B::parts(), C::parts() + (D::parts() + E::parts()));
        lemma_pair_kinds::<B::Slots<'a>, SlotPair<C::Slots<'a>, SlotPair<D::Slots<'a>, E::Slots<'a>>>>();
        lemma_kinds_add(A::parts(), B::parts() + (C::parts() + (D::parts() + E::parts())));
        lemma_pair_kinds::<A::Slots<'a>, SlotPair<B::Slots<'a>, SlotPair<C::Slots<'a>, SlotPair<D::Slots<'a>, E::Slots<'a>>>>>();
    }

    fn shape() -> (r: Shape) {
        let s = E::shape();
        let s = Shape::concat(&D::shape(), &s);
        let s = Shape::concat(&C::shape(), &s);
        let s = Shape::concat(&B::shape(), &s);
        Shape::concat(&A::shape(), &s)
    }

    fn leaf_count() -> (r: usize) {
        let n: usize = A::leaf_count() + <(B, C, D, E) as Key>::leaf_count();
        if n > MAX_PARTS {
            MAX_PARTS
        } else {
            n
        }
    }

    fn descending(p: usize) -> (r: bool) {
        let n: usize = A::leaf_count();
        if p < n {
            A::descending(p)
        } else {
            <(B, C, D, E) as Key>::descending(p - n)
        }
    }

    fn write_parts<'a, S: PartSink<'a>>(&'a self, flip: bool, sink: &mut S) {
        let ghost l0 = sink.log();
        self.0.write_parts(flip, sink);
        let ghost l1 = sink.log();
        self.1.write_parts(flip, sink);
        let ghost l2 = sink.log();
        self.2.write_parts(flip, sink);
        let ghost l3 = sink.log();
        self.3.write_parts(flip, sink);
        let ghost l4 = sink.log();
        self.4.write_parts(flip, sink);
        proof {
            lemma_turned_add(self.3.leaves(), self.4.leaves(), flip);
            lemma_log_add(l3, turned(self.3.leaves(), flip), turned(self.4.leaves(), flip));
            lemma_turned_add(self.2.leaves(), self.3.leaves() + self.4.leaves(), flip);
            lemma_log_add(l2, turned(self.2.leaves(), flip), turned(self.3.leaves() + self.4.leaves(), flip));
            lemma_turned_add(self.1.leaves(), self.2.leaves() + (self.3.leaves() + self.4.leaves()), flip);
            lemma_log_add(l1, turned(self.1.leaves(), flip), turned(self.2.leaves() + (self.3.leaves() + self.4.leaves()), flip));
            lemma_turned_add(self.0.leaves(), self.1.leaves() + (self.2.leaves() + (self.3.leaves() + self.4.leaves())), flip);
            lemma_log_add(l0, turned(self.0.leaves(), flip), turned(self.1.leaves() + (self.2.leaves() + (self.3.leaves() + self.4.leaves())), flip));
        }
    }

    fn cmp_key(&self, other: &Self) -> (r: Ordering) {
        proof {
            self.0.leaves_shaped();
            other.0.leaves_shaped();
            lemma_pair_ordering(self.0.leaves(), self.1.leaves() + (self.2.leaves() + (self.3.leaves() + self.4.leaves())), other.0.leaves(), other.1.leaves() + (other.2.leaves() + (other.3.leaves() + other.4.leaves())));
            self.1.leaves_shaped();
            other.1.leaves_shaped();
            lemma_pair_ordering(self.1.leaves(), self.2.leaves() + (self.3.leaves() + self.4.leaves()), other.1.leaves(), other.2.leaves() + (other.3.leaves() + other.4.leaves()));
            self.2.leaves_shaped();
            other.2.leaves_shaped();
            lemma_pair_ordering(self.2.leaves(), self.3.leaves() + self.4.leaves(), other.2.leaves(), other.3.leaves() + other.4.leaves());
            self.3.leaves_shaped();
            other.3.leaves_shaped();
            lemma_pair_ordering(self.3.leaves(), self.4.leaves(), other.3.leaves(), other.4.leaves());
        }
        match self.0.cmp_key(&other.0) {
            Ordering::Equal => {},
            c => {
                return c;
            },
        }
        match self.1.cmp_key(&other.1) {
            Ordering::Equal => {},
            c => {
                return c;
            },
        }
        match self.2.cmp_key(&other.2) {
            Ordering::Equal => {},
            c => {
                return c;
            },
        }
        match self.3.cmp_key(&other.3) {
            Ordering::Equal => {},
            c => {
                return c;
            },
        }
        self.4.cmp_key(&other.4)
    }

    fn spare(&self) -> (r: u32) {
        0
    }

    fn from_radix(radix: u64, spare: u32) -> (r: Option<Self>) {
        None
    }
}

impl<A: Key, B: Key, C: Key, D: Key, E: Key, F: Key> Key for (A, B, C, D, E, F) {
    type Slots<'a> = SlotPair<A::Slots<'a>, SlotPair<B::Slots<'a>, SlotPair<C::Slots<'a>, SlotPair<D::Slots<'a>, SlotPair<E::Slots<'a>, F::Slots<'a>>>>>>;

    open spec fn parts() -> Seq<Part> {
        A::parts() + (B::parts() + (C::parts() + (D::parts() + (E::parts() + F::parts()))))
    }

    open spec fn leaves(&self) -> Seq<LeafModel> {
        self.0.leaves() + (self.1.leaves() + (self.2.leaves() + (self.3.leaves() + (self.4.leaves() + self.5.leaves()))))
    }

    proof fn leaves_shaped(&self) {
        self.0.leaves_shaped();
        self.1.leaves_shaped();
        self.2.leaves_shaped();
        self.3.leaves_shaped();
        self.4.leaves_shaped();
        self.5.leaves_shaped();
        lemma_shaped_add(self.4.leaves(), E::parts(), self.5.leaves(), F::parts());
        lemma_shaped_add(self.3.leaves(), D::parts(), self.4.leaves() + self.5.leaves(), E::parts() + F::parts());
        lemma_shaped_add(self.2.leaves(), C::parts(), self.3.leaves() + (self.4.leaves() + self.5.leaves()), D::parts() + (E::parts() + F::parts()));
        lemma_shaped_add(self.1.leaves(), B::parts(), self.2.leaves() + (self.3.leaves() + (self.4.leaves() + self.5.leaves())), C::parts() + (D::parts() + (E::parts() + F::parts())));
        lemma_shaped_add(self.0.leaves(), A::parts(), self.1.leaves() + (self.2.leaves() + (self.3.leaves() + (self.4.leaves() + self.5.leaves()))), B::parts() + (C::parts() + (D::parts() + (E::parts() + F::parts()))));
    }

    proof fn slots_shaped<'a>() {
        A::slots_shaped();
        B::slots_shaped();
        C::slots_shaped();
        D::slots_shaped();
        E::slots_shaped();
        F::slots_shaped();
        lemma_kinds_add(E::parts(), F::parts());
        lemma_pair_kinds::<E::Slots<'a>, F::Slots<'a>>();
        lemma_kinds_add(D::parts(), E::parts() + F::parts());
        lemma_pair_kinds::<D::Slots<'a>, SlotPair<E::Slots<'a>, F::Slots<'a>>>();
        lemma_kinds_add(C::parts(), D::parts() + (E::parts() + F::parts()));
        lemma_pair_kinds::<C::Slots<'a>, SlotPair<D::Slots<'a>, SlotPair<E::Slots<'a>, F::Slots<'a>>>>();
        lemma_kinds_add(B::parts(), C::parts() + (D::parts() + (E::parts() + F::parts())));
        lemma_pair_kinds::<B::Slots<'a>, SlotPair<C::Slots<'a>, SlotPair<D::Slots<'a>, SlotPair<E::Slots<'a>, F::Slots<'a>>>>>();
        lemma_kinds_add(A::parts(), B::parts() + (C::parts() + (D::parts() + (E::parts() + F::parts()))));
        lemma_pair_kinds::<A::Slots<'a>, SlotPair<B::Slots<'a>, SlotPair<C::Slots<'a>, SlotPair<D::Slots<'a>, SlotPair<E::Slots<'a>, F::Slots<'a>>>>>>();
    }

    fn shape() -> (r: Shape) {
        let s = F::shape();
        let s = Shape::concat(&E::shape(), &s);
        let s = Shape::concat(&D::shape(), &s);
        let s = Shape::concat(&C::shape(), &s);
        let s = Shape::concat(&B::shape(), &s);
        Shape::concat(&A::shape(), &s)
    }

    fn leaf_count() -> (r: usize) {
        let n: usize = A::leaf_count() + <(B, C, D, E, F) as Key>::leaf_count();
        if n > MAX_PARTS {
            MAX_PARTS
        } else {
            n
        }
    }

    fn descending(p: usize) -> (r: bool) {
        let n: usize = A::leaf_count();
        if p < n {
            A::descending(p)
        } else {
            <(B, C, D, E, F) as Key>::descending(p - n)
        }
    }

    fn write_parts<'a, S: PartSink<'a>>(&'a self, flip: bool, sink: &mut S) {
        let ghost l0 = sink.log();
        self.0.write_parts(flip, sink);
        let ghost l1 = sink.log();
        self.1.write_parts(flip, sink);
        let ghost l2 = sink.log();
        self.2.write_parts(flip, sink);
        let ghost l3 = sink.log();
        self.3.write_parts(flip, sink);
        let ghost l4 = sink.log();
        self.4.write_parts(flip, sink);
        let ghost l5 = sink.log();
        self.5.write_parts(flip, sink);
        proof {
            lemma_turned_add(self.4.leaves(), self.5.leaves(), flip);
            lemma_log_add(l4, turned(self.4.leaves(), flip), turned(self.5.leaves(), flip));
            lemma_turned_add(self.3.leaves(), self.4.leaves() + self.5.leaves(), flip);
            lemma_log_add(l3, turned(self.3.leaves(), flip), turned(self.4.leaves() + self.5.leaves(), flip));
            lemma_turned_add(self.2.leaves(), self.3.leaves() + (self.4.leaves() + self.5.leaves()), flip);
            lemma_log_add(l2, turned(self.2.leaves(), flip), turned(self.3.leaves() + (self.4.leaves() + self.5.leaves()), flip));
            lemma_turned_add(self.1.leaves(), self.2.leaves() + (self.3.leaves() + (self.4.leaves() + self.5.leaves())), flip);
            lemma_log_add(l1, turned(self.1.leaves(), flip), turned(self.2.leaves() + (self.3.leaves() + (self.4.leaves() + self.5.leaves())), flip));
            lemma_turned_add(self.0.leaves(), self.1.leaves() + (self.2.leaves() + (self.3.leaves() + (self.4.leaves() + self.5.leaves()))), flip);
            lemma_log_add(l0, turned(self.0.leaves(), flip), turned(self.1.leaves() + (self.2.leaves() + (self.3.leaves() + (self.4.leaves() + self.5.leaves()))), flip));
        }
    }

    fn cmp_key(&self, other: &Self) -> (r: Ordering) {
        proof {
            self.0.leaves_shaped();
            other.0.leaves_shaped();
            lemma_pair_ordering(self.0.leaves(), self.1.leaves() + (self.2.leaves() + (self.3.leaves() + (self.4.leaves() + self.5.leaves()))), other.0.leaves(), other.1.leaves() + (other.2.leaves() + (other.3.leaves() + (other.4.leaves() + other.5.leaves()))));
            self.1.leaves_shaped();
            other.1.leaves_shaped();
            lemma_pair_ordering(self.1.leaves(), self.2.leaves() + (self.3.leaves() + (self.4.leaves() + self.5.leaves())), other.1.leaves(), other.2.leaves() + (other.3.leaves() + (other.4.leaves() + other.5.leaves())));
            self.2.leaves_shaped();
            other.2.leaves_shaped();
            lemma_pair_ordering(self.2.leaves(), self.3.leaves() + (self.4.leaves() + self.5.leaves()), other.2.leaves(), other.3.leaves() + (other.4.leaves() + other.5.leaves()));
            self.3.leaves_shaped();
            other.3.leaves_shaped();
            lemma_pair_ordering(self.3.leaves(), self.4.leaves() + self.5.leaves(), other.3.leaves(), other.4.leaves() + other.5.leaves());
            self.4.leaves_shaped();
            other.4.leaves_shaped();
            lemma_pair_ordering(self.4.leaves(), self.5.leaves(), other.4.leaves(), other.5.leaves());
        }
        match self.0.cmp_key(&other.0) {
            Ordering::Equal => {},
            c => {
                return c;
            },
        }
        match self.1.cmp_key(&other.1) {
            Ordering::Equal => {},
            c => {
                return c;
            },
        }
        match self.2.cmp_key(&other.2) {
            Ordering::Equal => {},
            c => {
                return c;
            },
        }
        match self.3.cmp_key(&other.3) {
            Ordering::Equal => {},
            c => {
                return c;
            },
        }
        match self.4.cmp_key(&other.4) {
            Ordering::Equal => {},
            c => {
                return c;
            },
        }
        self.5.cmp_key(&other.5)
    }

    fn spare(&self) -> (r: u32) {
        0
    }

    fn from_radix(radix: u64, spare: u32) -> (r: Option<Self>) {
        None
    }
}

impl<A: Key, B: Key, C: Key, D: Key, E: Key, F: Key, G: Key> Key for (A, B, C, D, E, F, G) {
    type Slots<'a> = SlotPair<A::Slots<'a>, SlotPair<B::Slots<'a>, SlotPair<C::Slots<'a>, SlotPair<D::Slots<'a>, SlotPair<E::Slots<'a>, SlotPair<F::Slots<'a>, G::Slots<'a>>>>>>>;

    open spec fn parts() -> Seq<Part> {
        A::parts() + (B::parts() + (C::parts() + (D::parts() + (E::parts() + (F::parts() + G::parts())))))
    }

    open spec fn leaves(&self) -> Seq<LeafModel> {
        self.0.leaves() + (self.1.leaves() + (self.2.leaves() + (self.3.leaves() + (self.4.leaves() + (self.5.leaves() + self.6.leaves())))))
    }

    proof fn leaves_shaped(&self) {
        self.0.leaves_shaped();
        self.1.leaves_shaped();
        self.2.leaves_shaped();
        self.3.leaves_shaped();
        self.4.leaves_shaped();
        self.5.leaves_shaped();
        self.6.leaves_shaped();
        lemma_shaped_add(self.5.leaves(), F::parts(), self.6.leaves(), G::parts());
        lemma_shaped_add(self.4.leaves(), E::parts(), self.5.leaves() + self.6.leaves(), F::parts() + G::parts());
        lemma_shaped_add(self.3.leaves(), D::parts(), self.4.leaves() + (self.5.leaves() + self.6.leaves()), E::parts() + (F::parts() + G::parts()));
        lemma_shaped_add(self.2.leaves(), C::parts(), self.3.leaves() + (self.4.leaves() + (self.5.leaves() + self.6.leaves())), D::parts() + (E::parts() + (F::parts() + G::parts())));
        lemma_shaped_add(self.1.leaves(), B::parts(), self.2.leaves() + (self.3.leaves() + (self.4.leaves() + (self.5.leaves() + self.6.leaves()))), C::parts() + (D::parts() + (E::parts() + (F::parts() + G::parts()))));
        lemma_shaped_add(self.0.leaves(), A::parts(), self.1.leaves() + (self.2.leaves() + (self.3.leaves() + (self.4.leaves() + (self.5.leaves() + self.6.leaves())))), B::parts() + (C::parts() + (D::parts() + (E::parts() + (F::parts() + G::parts())))));
    }

    proof fn slots_shaped<'a>() {
        A::slots_shaped();
        B::slots_shaped();
        C::slots_shaped();
        D::slots_shaped();
        E::slots_shaped();
        F::slots_shaped();
        G::slots_shaped();
        lemma_kinds_add(F::parts(), G::parts());
        lemma_pair_kinds::<F::Slots<'a>, G::Slots<'a>>();
        lemma_kinds_add(E::parts(), F::parts() + G::parts());
        lemma_pair_kinds::<E::Slots<'a>, SlotPair<F::Slots<'a>, G::Slots<'a>>>();
        lemma_kinds_add(D::parts(), E::parts() + (F::parts() + G::parts()));
        lemma_pair_kinds::<D::Slots<'a>, SlotPair<E::Slots<'a>, SlotPair<F::Slots<'a>, G::Slots<'a>>>>();
        lemma_kinds_add(C::parts(), D::parts() + (E::parts() + (F::parts() + G::parts())));
        lemma_pair_kinds::<C::Slots<'a>, SlotPair<D::Slots<'a>, SlotPair<E::Slots<'a>, SlotPair<F::Slots<'a>, G::Slots<'a>>>>>();
        lemma_kinds_add(B::parts(), C::parts() + (D::parts() + (E::parts() + (F::parts() + G::parts()))));
        lemma_pair_kinds::<B::Slots<'a>, SlotPair<C::Slots<'a>, SlotPair<D::Slots<'a>, SlotPair<E::Slots<'a>, SlotPair<F::Slots<'a>, G::Slots<'a>>>>>>();
        lemma_kinds_add(A::parts(), B::parts() + (C::parts() + (D::parts() + (E::parts() + (F::parts() + G::parts())))));
        lemma_pair_kinds::<A::Slots<'a>, SlotPair<B::Slots<'a>, SlotPair<C::Slots<'a>, SlotPair<D::Slots<'a>, SlotPair<E::Slots<'a>, SlotPair<F::Slots<'a>, G::Slots<'a>>>>>>>();
    }

    fn shape() -> (r: Shape) {
        let s = G::shape();
        let s = Shape::concat(&F::shape(), &s);
        let s = Shape::concat(&E::shape(), &s);
        let s = Shape::concat(&D::shape(), &s);
        let s = Shape::concat(&C::shape(), &s);
        let s = Shape::concat(&B::shape(), &s);
        Shape::concat(&A::shape(), &s)
    }

    fn leaf_count() -> (r: usize) {
        let n: usize = A::leaf_count() + <(B, C, D, E, F, G) as Key>::leaf_count();
        if n > MAX_PARTS {
            MAX_PARTS
        } else {
            n
        }
    }

    fn descending(p: usize) -> (r: bool) {
        let n: usize = A::leaf_count();
        if p < n {
            A::descending(p)
        } else {
            <(B, C, D, E, F, G) as Key>::descending(p - n)
        }
    }

    fn write_parts<'a, S: PartSink<'a>>(&'a self, flip: bool, sink: &mut S) {
        let ghost l0 = sink.log();
        self.0.write_parts(flip, sink);
        let ghost l1 = sink.log();
        self.1.write_parts(flip, sink);
        let ghost l2 = sink.log();
        self.2.write_parts(flip, sink);
        let ghost l3 = sink.log();
        self.3.write_parts(flip, sink);
        let ghost l4 = sink.log();
        self.4.write_parts(flip, sink);
        let ghost l5 = sink.log();
        self.5.write_parts(flip, sink);
        let ghost l6 = sink.log();
        self.6.write_parts(flip, sink);
        proof {
            lemma_turned_add(self.5.leaves(), self.6.leaves(), flip);
            lemma_log_add(l5, turned(self.5.leaves(), flip), turned(self.6.leaves(), flip));
            lemma_turned_add(self.4.leaves(), self.5.leaves() + self.6.leaves(), flip);
            lemma_log_add(l4, turned(self.4.leaves(), flip), turned(self.5.leaves() + self.6.leaves(), flip));
            lemma_turned_add(self.3.leaves(), self.4.leaves() + (self.5.leaves() + self.6.leaves()), flip);
            lemma_log_add(l3, turned(self.3.leaves(), flip), turned(self.4.leaves() + (self.5.leaves() + self.6.leaves()), flip));
            lemma_turned_add(self.2.leaves(), self.3.leaves() + (self.4.leaves() + (self.5.leaves() + self.6.leaves())), flip);
            lemma_log_add(l2, turned(self.2.leaves(), flip), turned(self.3.leaves() + (self.4.leaves() + (self.5.leaves() + self.6.leaves())), flip));
            lemma_turned_add(self.1.leaves(), self.2.leaves() + (self.3.leaves() + (self.4.leaves() + (self.5.leaves() + self.6.leaves()))), flip);
            lemma_log_add(l1, turned(self.1.leaves(), flip), turned(self.2.leaves() + (self.3.leaves() + (self.4.leaves() + (self.5.leaves() + self.6.leaves()))), flip));
            lemma_turned_add(self.0.leaves(), self.1.leaves() + (self.2.leaves() + (self.3.leaves() + (self.4.leaves() + (self.5.leaves() + self.6.leaves())))), flip);
            lemma_log_add(l0, turned(self.0.leaves(), flip), turned(self.1.leaves() + (self.2.leaves() + (self.3.leaves() + (self.4.leaves() + (self.5.leaves() + self.6.leaves())))), flip));
        }
    }

    fn cmp_key(&self, other: &Self) -> (r: Ordering) {
        proof {
            self.0.leaves_shaped();
            other.0.leaves_shaped();
            lemma_pair_ordering(self.0.leaves(), self.1.leaves() + (self.2.leaves() + (self.3.leaves() + (self.4.leaves() + (self.5.leaves() + self.6.leaves())))), other.0.leaves(), other.1.leaves() + (other.2.leaves() + (other.3.leaves() + (other.4.leaves() + (other.5.leaves() + other.6.leaves())))));
            self.1.leaves_shaped();
            other.1.leaves_shaped();
            lemma_pair_ordering(self.1.leaves(), self.2.leaves() + (self.3.leaves() + (self.4.leaves() + (self.5.leaves() + self.6.leaves()))), other.1.leaves(), other.2.leaves() + (other.3.leaves() + (other.4.leaves() + (other.5.leaves() + other.6.leaves()))));
            self.2.leaves_shaped();
            other.2.leaves_shaped();
            lemma_pair_ordering(self.2.leaves(), self.3.leaves() + (self.4.leaves() + (self.5.leaves() + self.6.leaves())), other.2.leaves(), other.3.leaves() + (other.4.leaves() + (other.5.leaves() + other.6.leaves())));
            self.3.leaves_shaped();
            other.3.leaves_shaped();
            lemma_pair_ordering(self.3.leaves(), self.4.leaves() + (self.5.leaves() + self.6.leaves()), other.3.leaves(), other.4.leaves() + (other.5.leaves() + other.6.leaves()));
            self.4.leaves_shaped();
            other.4.leaves_shaped();
            lemma_pair_ordering(self.4.leaves(), self.5.leaves() + self.6.leaves(), other.4.leaves(), other.5.leaves() + other.6.leaves());
            self.5.leaves_shaped();
            other.5.leaves_shaped();
            lemma_pair_ordering(self.5.leaves(), self.6.leaves(), other.5.leaves(), other.6.leaves());
        }
        match self.0.cmp_key(&other.0) {
            Ordering::Equal => {},
            c => {
                return c;
            },
        }
        match self.1.cmp_key(&other.1) {
            Ordering::Equal => {},
            c => {
                return c;
            },
        }
        match self.2.cmp_key(&other.2) {
            Ordering::Equal => {},
            c => {
                return c;
            },
        }
        match self.3.cmp_key(&other.3) {
            Ordering::Equal => {},
            c => {
                return c;
            },
        }
        match self.4.cmp_key(&other.4) {
            Ordering::Equal => {},
            c => {
                return c;
            },
        }
        match self.5.cmp_key(&other.5) {
            Ordering::Equal => {},
            c => {
                return c;
            },
        }
        self.6.cmp_key(&other.6)
    }

    fn spare(&self) -> (r: u32) {
        0
    }

    fn from_radix(radix: u64, spare: u32) -> (r: Option<Self>) {
        None
    }
}

impl<A: Key, B: Key, C: Key, D: Key, E: Key, F: Key, G: Key, H: Key> Key for (A, B, C, D, E, F, G, H) {
    type Slots<'a> = SlotPair<A::Slots<'a>, SlotPair<B::Slots<'a>, SlotPair<C::Slots<'a>, SlotPair<D::Slots<'a>, SlotPair<E::Slots<'a>, SlotPair<F::Slots<'a>, SlotPair<G::Slots<'a>, H::Slots<'a>>>>>>>>;

    open spec fn parts() -> Seq<Part> {
        A::parts() + (B::parts() + (C::parts() + (D::parts() + (E::parts() + (F::parts() + (G::parts() + H::parts()))))))
    }

    open spec fn leaves(&self) -> Seq<LeafModel> {
        self.0.leaves() + (self.1.leaves() + (self.2.leaves() + (self.3.leaves() + (self.4.leaves() + (self.5.leaves() + (self.6.leaves() + self.7.leaves()))))))
    }

    proof fn leaves_shaped(&self) {
        self.0.leaves_shaped();
        self.1.leaves_shaped();
        self.2.leaves_shaped();
        self.3.leaves_shaped();
        self.4.leaves_shaped();
        self.5.leaves_shaped();
        self.6.leaves_shaped();
        self.7.leaves_shaped();
        lemma_shaped_add(self.6.leaves(), G::parts(), self.7.leaves(), H::parts());
        lemma_shaped_add(self.5.leaves(), F::parts(), self.6.leaves() + self.7.leaves(), G::parts() + H::parts());
        lemma_shaped_add(self.4.leaves(), E::parts(), self.5.leaves() + (self.6.leaves() + self.7.leaves()), F::parts() + (G::parts() + H::parts()));
        lemma_shaped_add(self.3.leaves(), D::parts(), self.4.leaves() + (self.5.leaves() + (self.6.leaves() + self.7.leaves())), E::parts() + (F::parts() + (G::parts() + H::parts())));
        lemma_shaped_add(self.2.leaves(), C::parts(), self.3.leaves() + (self.4.leaves() + (self.5.leaves() + (self.6.leaves() + self.7.leaves()))), D::parts() + (E::parts() + (F::parts() + (G::parts() + H::parts()))));
        lemma_shaped_add(self.1.leaves(), B::parts(), self.2.leaves() + (self.3.leaves() + (self.4.leaves() + (self.5.leaves() + (self.6.leaves() + self.7.leaves())))), C::parts() + (D::parts() + (E::parts() + (F::parts() + (G::parts() + H::parts())))));
        lemma_shaped_add(self.0.leaves(), A::parts(), self.1.leaves() + (self.2.leaves() + (self.3.leaves() + (self.4.leaves() + (self.5.leaves() + (self.6.leaves() + self.7.leaves()))))), B::parts() + (C::parts() + (D::parts() + (E::parts() + (F::parts() + (G::parts() + H::parts()))))));
    }

    proof fn slots_shaped<'a>() {
        A::slots_shaped();
        B::slots_shaped();
        C::slots_shaped();
        D::slots_shaped();
        E::slots_shaped();
        F::slots_shaped();
        G::slots_shaped();
        H::slots_shaped();
        lemma_kinds_add(G::parts(), H::parts());
        lemma_pair_kinds::<G::Slots<'a>, H::Slots<'a>>();
        lemma_kinds_add(F::parts(), G::parts() + H::parts());
        lemma_pair_kinds::<F::Slots<'a>, SlotPair<G::Slots<'a>, H::Slots<'a>>>();
        lemma_kinds_add(E::parts(), F::parts() + (G::parts() + H::parts()));
        lemma_pair_kinds::<E::Slots<'a>, SlotPair<F::Slots<'a>, SlotPair<G::Slots<'a>, H::Slots<'a>>>>();
        lemma_kinds_add(D::parts(), E::parts() + (F::parts() + (G::parts() + H::parts())));
        lemma_pair_kinds::<D::Slots<'a>, SlotPair<E::Slots<'a>, SlotPair<F::Slots<'a>, SlotPair<G::Slots<'a>, H::Slots<'a>>>>>();
        lemma_kinds_add(C::parts(), D::parts() + (E::parts() + (F::parts() + (G::parts() + H::parts()))));
        lemma_pair_kinds::<C::Slots<'a>, SlotPair<D::Slots<'a>, SlotPair<E::Slots<'a>, SlotPair<F::Slots<'a>, SlotPair<G::Slots<'a>, H::Slots<'a>>>>>>();
        lemma_kinds_add(B::parts(), C::parts() + (D::parts() + (E::parts() + (F::parts() + (G::parts() + H::parts())))));
        lemma_pair_kinds::<B::Slots<'a>, SlotPair<C::Slots<'a>, SlotPair<D::Slots<'a>, SlotPair<E::Slots<'a>, SlotPair<F::Slots<'a>, SlotPair<G::Slots<'a>, H::Slots<'a>>>>>>>();
        lemma_kinds_add(A::parts(), B::parts() + (C::parts() + (D::parts() + (E::parts() + (F::parts() + (G::parts() + H::parts()))))));
        lemma_pair_kinds::<A::Slots<'a>, SlotPair<B::Slots<'a>, SlotPair<C::Slots<'a>, SlotPair<D::Slots<'a>, SlotPair<E::Slots<'a>, SlotPair<F::Slots<'a>, SlotPair<G::Slots<'a>, H::Slots<'a>>>>>>>>();
    }

    fn shape() -> (r: Shape) {
        let s = H::shape();
        let s = Shape::concat(&G::shape(), &s);
        let s = Shape::concat(&F::shape(), &s);
        let s = Shape::concat(&E::shape(), &s);
        let s = Shape::concat(&D::shape(), &s);
        let s = Shape::concat(&C::shape(), &s);
        let s = Shape::concat(&B::shape(), &s);
        Shape::concat(&A::shape(), &s)
    }

    fn leaf_count() -> (r: usize) {
        let n: usize = A::leaf_count() + <(B, C, D, E, F, G, H) as Key>::leaf_count();
        if n > MAX_PARTS {
            MAX_PARTS
        } else {
            n
        }
    }

    fn descending(p: usize) -> (r: bool) {
        let n: usize = A::leaf_count();
        if p < n {
            A::descending(p)
        } else {
            <(B, C, D, E, F, G, H) as Key>::descending(p - n)
        }
    }

    fn write_parts<'a, S: PartSink<'a>>(&'a self, flip: bool, sink: &mut S) {
        let ghost l0 = sink.log();
        self.0.write_parts(flip, sink);
        let ghost l1 = sink.log();
        self.1.write_parts(flip, sink);
        let ghost l2 = sink.log();
        self.2.write_parts(flip, sink);
        let ghost l3 = sink.log();
        self.3.write_parts(flip, sink);
        let ghost l4 = sink.log();
        self.4.write_parts(flip, sink);
        let ghost l5 = sink.log();
        self.5.write_parts(flip, sink);
        let ghost l6 = sink.log();
        self.6.write_parts(flip, sink);
        let ghost l7 = sink.log();
        self.7.write_parts(flip, sink);
        proof {
            lemma_turned_add(self.6.leaves(), self.7.leaves(), flip);
            lemma_log_add(l6, turned(self.6.leaves(), flip), turned(self.7.leaves(), flip));
            lemma_turned_add(self.5.leaves(), self.6.leaves() + self.7.leaves(), flip);
            lemma_log_add(l5, turned(self.5.leaves(), flip), turned(self.6.leaves() + self.7.leaves(), flip));
            lemma_turned_add(self.4.leaves(), self.5.leaves() + (self.6.leaves() + self.7.leaves()), flip);
            lemma_log_add(l4, turned(self.4.leaves(), flip), turned(self.5.leaves() + (self.6.leaves() + self.7.leaves()), flip));
            lemma_turned_add(self.3.leaves(), self.4.leaves() + (self.5.leaves() + (self.6.leaves() + self.7.leaves())), flip);
            lemma_log_add(l3, turned(self.3.leaves(), flip), turned(self.4.leaves() + (self.5.leaves() + (self.6.leaves() + self.7.leaves())), flip));
            lemma_turned_add(self.2.leaves(), self.3.leaves() + (self.4.leaves() + (self.5.leaves() + (self.6.leaves() + self.7.leaves()))), flip);
            lemma_log_add(l2, turned(self.2.leaves(), flip), turned(self.3.leaves() + (self.4.leaves() + (self.5.leaves() + (self.6.leaves() + self.7.leaves()))), flip));
            lemma_turned_add(self.1.leaves(), self.2.leaves() + (self.3.leaves() + (self.4.leaves() + (self.5.leaves() + (self.6.leaves() + self.7.leaves())))), flip);
            lemma_log_add(l1, turned(self.1.leaves(), flip), turned(self.2.leaves() + (self.3.leaves() + (self.4.leaves() + (self.5.leaves() + (self.6.leaves() + self.7.leaves())))), flip));
            lemma_turned_add(self.0.leaves(), self.1.leaves() + (self.2.leaves() + (self.3.leaves() + (self.4.leaves() + (self.5.leaves() + (self.6.leaves() + self.7.leaves()))))), flip);
            lemma_log_add(l0, turned(self.0.leaves(), flip), turned(self.1.leaves() + (self.2.leaves() + (self.3.leaves() + (self.4.leaves() + (self.5.leaves() + (self.6.leaves() + self.7.leaves()))))), flip));
        }
    }

    fn cmp_key(&self, other: &Self) -> (r: Ordering) {
        proof {
            self.0.leaves_shaped();
            other.0.leaves_shaped();
            lemma_pair_ordering(self.0.leaves(), self.1.leaves() + (self.2.leaves() + (self.3.leaves() + (self.4.leaves() + (self.5.leaves() + (self.6.leaves() + self.7.leaves()))))), other.0.leaves(), other.1.leaves() + (other.2.leaves() + (other.3.leaves() + (other.4.leaves() + (other.5.leaves() + (other.6.leaves() + other.7.leaves()))))));
            self.1.leaves_shaped();
            other.1.leaves_shaped();
            lemma_pair_ordering(self.1.leaves(), self.2.leaves() + (self.3.leaves() + (self.4.leaves() + (self.5.leaves() + (self.6.leaves() + self.7.leaves())))), other.1.leaves(), other.2.leaves() + (other.3.leaves() + (other.4.leaves() + (other.5.leaves() + (other.6.leaves() + other.7.leaves())))));
            self.2.leaves_shaped();
            other.2.leaves_shaped();
            lemma_pair_ordering(self.2.leaves(), self.3.leaves() + (self.4.leaves() + (self.5.leaves() + (self.6.leaves() + self.7.leaves()))), other.2.leaves(), other.3.leaves() + (other.4.leaves() + (other.5.leaves() + (other.6.leaves() + other.7.leaves()))));
            self.3.leaves_shaped();
            other.3.leaves_shaped();
            lemma_pair_ordering(self.3.leaves(), self.4.leaves() + (self.5.leaves() + (self.6.leaves() + self.7.leaves())), other.3.leaves(), other.4.leaves() + (other.5.leaves() + (other.6.leaves() + other.7.leaves())));
            self.4.leaves_shaped();
            other.4.leaves_shaped();
            lemma_pair_ordering(self.4.leaves(), self.5.leaves() + (self.6.leaves() + self.7.leaves()), other.4.leaves(), other.5.leaves() + (other.6.leaves() + other.7.leaves()));
            self.5.leaves_shaped();
            other.5.leaves_shaped();
            lemma_pair_ordering(self.5.leaves(), self.6.leaves() + self.7.leaves(), other.5.leaves(), other.6.leaves() + other.7.leaves());
            self.6.leaves_shaped();
            other.6.leaves_shaped();
            lemma_pair_ordering(self.6.leaves(), self.7.leaves(), other.6.leaves(), other.7.leaves());
        }
        match self.0.cmp_key(&other.0) {
            Ordering::Equal => {},
            c => {
                return c;
            },
        }
        match self.1.cmp_key(&other.1) {
            Ordering::Equal => {},
            c => {
                return c;
            },
        }
        match self.2.cmp_key(&other.2) {
            Ordering::Equal => {},
            c => {
                return c;
            },
        }
        match self.3.cmp_key(&other.3) {
            Ordering::Equal => {},
            c => {
                return c;
            },
        }
        match self.4.cmp_key(&other.4) {
            Ordering::Equal => {},
            c => {
                return c;
            },
        }
        match self.5.cmp_key(&other.5) {
            Ordering::Equal => {},
            c => {
                return c;
            },
        }
        match self.6.cmp_key(&other.6) {
            Ordering::Equal => {},
            c => {
                return c;
            },
        }
        self.7.cmp_key(&other.7)
    }

    fn spare(&self) -> (r: u32) {
        0
    }

    fn from_radix(radix: u64, spare: u32) -> (r: Option<Self>) {
        None
    }
}

impl<A: Key, B: Key, C: Key, D: Key, E: Key, F: Key, G: Key, H: Key, I: Key> Key for (A, B, C, D, E, F, G, H, I) {
    type Slots<'a> = SlotPair<A::Slots<'a>, SlotPair<B::Slots<'a>, SlotPair<C::Slots<'a>, SlotPair<D::Slots<'a>, SlotPair<E::Slots<'a>, SlotPair<F::Slots<'a>, SlotPair<G::Slots<'a>, SlotPair<H::Slots<'a>, I::Slots<'a>>>>>>>>>;

    open spec fn parts() -> Seq<Part> {
        A::parts() + (B::parts() + (C::parts() + (D::parts() + (E::parts() + (F::parts() + (G::parts() + (H::parts() + I::parts())))))))
    }

    open spec fn leaves(&self) -> Seq<LeafModel> {
        self.0.leaves() + (self.1.leaves() + (self.2.leaves() + (self.3.leaves() + (self.4.leaves() + (self.5.leaves() + (self.6.leaves() + (self.7.leaves() + self.8.leaves())))))))
    }

    proof fn leaves_shaped(&self) {
        self.0.leaves_shaped();
        self.1.leaves_shaped();
        self.2.leaves_shaped();
        self.3.leaves_shaped();
        self.4.leaves_shaped();
        self.5.leaves_shaped();
        self.6.leaves_shaped();
        self.7.leaves_shaped();
        self.8.leaves_shaped();
        lemma_shaped_add(self.7.leaves(), H::parts(), self.8.leaves(), I::parts());
        lemma_shaped_add(self.6.leaves(), G::parts(), self.7.leaves() + self.8.leaves(), H::parts() + I::parts());
        lemma_shaped_add(self.5.leaves(), F::parts(), self.6.leaves() + (self.7.leaves() + self.8.leaves()), G::parts() + (H::parts() + I::parts()));
        lemma_shaped_add(self.4.leaves(), E::parts(), self.5.leaves() + (self.6.leaves() + (self.7.leaves() + self.8.leaves())), F::parts() + (G::parts() + (H::parts() + I::parts())));
        lemma_shaped_add(self.3.leaves(), D::parts(), self.4.leaves() + (self.5.leaves() + (self.6.leaves() + (self.7.leaves() + self.8.leaves()))), E::parts() + (F::parts() + (G::parts() + (H::parts() + I::parts()))));
        lemma_shaped_add(self.2.leaves(), C::parts(), self.3.leaves() + (self.4.leaves() + (self.5.leaves() + (self.6.leaves() + (self.7.leaves() + self.8.leaves())))), D::parts() + (E::parts() + (F::parts() + (G::parts() + (H::parts() + I::parts())))));
        lemma_shaped_add(self.1.leaves(), B::parts(), self.2.leaves() + (self.3.leaves() + (self.4.leaves() + (self.5.leaves() + (self.6.leaves() + (self.7.leaves() + self.8.leaves()))))), C::parts() + (D::parts() + (E::parts() + (F::parts() + (G::parts() + (H::parts() + I::parts()))))));
        lemma_shaped_add(self.0.leaves(), A::parts(), self.1.leaves() + (self.2.leaves() + (self.3.leaves() + (self.4.leaves() + (self.5.leaves() + (self.6.leaves() + (self.7.leaves() + self.8.leaves())))))), B::parts() + (C::parts() + (D::parts() + (E::parts() + (F::parts() + (G::parts() + (H::parts() + I::parts())))))));
    }

    proof fn slots_shaped<'a>() {
        A::slots_shaped();
        B::slots_shaped();
        C::slots_shaped();
        D::slots_shaped();
        E::slots_shaped();
        F::slots_shaped();
        G::slots_shaped();
        H::slots_shaped();
        I::slots_shaped();
        lemma_kinds_add(H::parts(), I::parts());
        lemma_pair_kinds::<H::Slots<'a>, I::Slots<'a>>();
        lemma_kinds_add(G::parts(), H::parts() + I::parts());
        lemma_pair_kinds::<G::Slots<'a>, SlotPair<H::Slots<'a>, I::Slots<'a>>>();
        lemma_kinds_add(F::parts(), G::parts() + (H::parts() + I::parts()));
        lemma_pair_kinds::<F::Slots<'a>, SlotPair<G::Slots<'a>, SlotPair<H::Slots<'a>, I::Slots<'a>>>>();
        lemma_kinds_add(E::parts(), F::parts() + (G::parts() + (H::parts() + I::parts())));
        lemma_pair_kinds::<E::Slots<'a>, SlotPair<F::Slots<'a>, SlotPair<G::Slots<'a>, SlotPair<H::Slots<'a>, I::Slots<'a>>>>>();
        lemma_kinds_add(D::parts(), E::parts() + (F::parts() + (G::parts() + (H::parts() + I::parts()))));
        lemma_pair_kinds::<D::Slots<'a>, SlotPair<E::Slots<'a>, SlotPair<F::Slots<'a>, SlotPair<G::Slots<'a>, SlotPair<H::Slots<'a>, I::Slots<'a>>>>>>();
        lemma_kinds_add(C::parts(), D::parts() + (E::parts() + (F::parts() + (G::parts() + (H::parts() + I::parts())))));
        lemma_pair_kinds::<C::Slots<'a>, SlotPair<D::Slots<'a>, SlotPair<E::Slots<'a>, SlotPair<F::Slots<'a>, SlotPair<G::Slots<'a>, SlotPair<H::Slots<'a>, I::Slots<'a>>>>>>>();
        lemma_kinds_add(B::parts(), C::parts() + (D::parts() + (E::parts() + (F::parts() + (G::parts() + (H::parts() + I::parts()))))));
        lemma_pair_kinds::<B::Slots<'a>, SlotPair<C::Slots<'a>, SlotPair<D::Slots<'a>, SlotPair<E::Slots<'a>, SlotPair<F::Slots<'a>, SlotPair<G::Slots<'a>, SlotPair<H::Slots<'a>, I::Slots<'a>>>>>>>>();
        lemma_kinds_add(A::parts(), B::parts() + (C::parts() + (D::parts() + (E::parts() + (F::parts() + (G::parts() + (H::parts() + I::parts())))))));
        lemma_pair_kinds::<A::Slots<'a>, SlotPair<B::Slots<'a>, SlotPair<C::Slots<'a>, SlotPair<D::Slots<'a>, SlotPair<E::Slots<'a>, SlotPair<F::Slots<'a>, SlotPair<G::Slots<'a>, SlotPair<H::Slots<'a>, I::Slots<'a>>>>>>>>>();
    }

    fn shape() -> (r: Shape) {
        let s = I::shape();
        let s = Shape::concat(&H::shape(), &s);
        let s = Shape::concat(&G::shape(), &s);
        let s = Shape::concat(&F::shape(), &s);
        let s = Shape::concat(&E::shape(), &s);
        let s = Shape::concat(&D::shape(), &s);
        let s = Shape::concat(&C::shape(), &s);
        let s = Shape::concat(&B::shape(), &s);
        Shape::concat(&A::shape(), &s)
    }

    fn leaf_count() -> (r: usize) {
        let n: usize = A::leaf_count() + <(B, C, D, E, F, G, H, I) as Key>::leaf_count();
        if n > MAX_PARTS {
            MAX_PARTS
        } else {
            n
        }
    }

    fn descending(p: usize) -> (r: bool) {
        let n: usize = A::leaf_count();
        if p < n {
            A::descending(p)
        } else {
            <(B, C, D, E, F, G, H, I) as Key>::descending(p - n)
        }
    }

    fn write_parts<'a, S: PartSink<'a>>(&'a self, flip: bool, sink: &mut S) {
        let ghost l0 = sink.log();
        self.0.write_parts(flip, sink);
        let ghost l1 = sink.log();
        self.1.write_parts(flip, sink);
        let ghost l2 = sink.log();
        self.2.write_parts(flip, sink);
        let ghost l3 = sink.log();
        self.3.write_parts(flip, sink);
        let ghost l4 = sink.log();
        self.4.write_parts(flip, sink);
        let ghost l5 = sink.log();
        self.5.write_parts(flip, sink);
        let ghost l6 = sink.log();
        self.6.write_parts(flip, sink);
        let ghost l7 = sink.log();
        self.7.write_parts(flip, sink);
        let ghost l8 = sink.log();
        self.8.write_parts(flip, sink);
        proof {
            lemma_turned_add(self.7.leaves(), self.8.leaves(), flip);
            lemma_log_add(l7, turned(self.7.leaves(), flip), turned(self.8.leaves(), flip));
            lemma_turned_add(self.6.leaves(), self.7.leaves() + self.8.leaves(), flip);
            lemma_log_add(l6, turned(self.6.leaves(), flip), turned(self.7.leaves() + self.8.leaves(), flip));
            lemma_turned_add(self.5.leaves(), self.6.leaves() + (self.7.leaves() + self.8.leaves()), flip);
            lemma_log_add(l5, turned(self.5.leaves(), flip), turned(self.6.leaves() + (self.7.leaves() + self.8.leaves()), flip));
            lemma_turned_add(self.4.leaves(), self.5.leaves() + (self.6.leaves() + (self.7.leaves() + self.8.leaves())), flip);
            lemma_log_add(l4, turned(self.4.leaves(), flip), turned(self.5.leaves() + (self.6.leaves() + (self.7.leaves() + self.8.leaves())), flip));
            lemma_turned_add(self.3.leaves(), self.4.leaves() + (self.5.leaves() + (self.6.leaves() + (self.7.leaves() + self.8.leaves()))), flip);
            lemma_log_add(l3, turned(self.3.leaves(), flip), turned(self.4.leaves() + (self.5.leaves() + (self.6.leaves() + (self.7.leaves() + self.8.leaves()))), flip));
            lemma_turned_add(self.2.leaves(), self.3.leaves() + (self.4.leaves() + (self.5.leaves() + (self.6.leaves() + (self.7.leaves() + self.8.leaves())))), flip);
            lemma_log_add(l2, turned(self.2.leaves(), flip), turned(self.3.leaves() + (self.4.leaves() + (self.5.leaves() + (self.6.leaves() + (self.7.leaves() + self.8.leaves())))), flip));
            lemma_turned_add(self.1.leaves(), self.2.leaves() + (self.3.leaves() + (self.4.leaves() + (self.5.leaves() + (self.6.leaves() + (self.7.leaves() + self.8.leaves()))))), flip);
            lemma_log_add(l1, turned(self.1.leaves(), flip), turned(self.2.leaves() + (self.3.leaves() + (self.4.leaves() + (self.5.leaves() + (self.6.leaves() + (self.7.leaves() + self.8.leaves()))))), flip));
            lemma_turned_add(self.0.leaves(), self.1.leaves() + (self.2.leaves() + (self.3.leaves() + (self.4.leaves() + (self.5.leaves() + (self.6.leaves() + (self.7.leaves() + self.8.leaves())))))), flip);
            lemma_log_add(l0, turned(self.0.leaves(), flip), turned(self.1.leaves() + (self.2.leaves() + (self.3.leaves() + (self.4.leaves() + (self.5.leaves() + (self.6.leaves() + (self.7.leaves() + self.8.leaves())))))), flip));
        }
    }

    fn cmp_key(&self, other: &Self) -> (r: Ordering) {
        proof {
            self.0.leaves_shaped();
            other.0.leaves_shaped();
            lemma_pair_ordering(self.0.leaves(), self.1.leaves() + (self.2.leaves() + (self.3.leaves() + (self.4.leaves() + (self.5.leaves() + (self.6.leaves() + (self.7.leaves() + self.8.leaves())))))), other.0.leaves(), other.1.leaves() + (other.2.leaves() + (other.3.leaves() + (other.4.leaves() + (other.5.leaves() + (other.6.leaves() + (other.7.leaves() + other.8.leaves())))))));
            self.1.leaves_shaped();
            other.1.leaves_shaped();
            lemma_pair_ordering(self.1.leaves(), self.2.leaves() + (self.3.leaves() + (self.4.leaves() + (self.5.leaves() + (self.6.leaves() + (self.7.leaves() + self.8.leaves()))))), other.1.leaves(), other.2.leaves() + (other.3.leaves() + (other.4.leaves() + (other.5.leaves() + (other.6.leaves() + (other.7.leaves() + other.8.leaves()))))));
            self.2.leaves_shaped();
            other.2.leaves_shaped();
            lemma_pair_ordering(self.2.leaves(), self.3.leaves() + (self.4.leaves() + (self.5.leaves() + (self.6.leaves() + (self.7.leaves() + self.8.leaves())))), other.2.leaves(), other.3.leaves() + (other.4.leaves() + (other.5.leaves() + (other.6.leaves() + (other.7.leaves() + other.8.leaves())))));
            self.3.leaves_shaped();
            other.3.leaves_shaped();
            lemma_pair_ordering(self.3.leaves(), self.4.leaves() + (self.5.leaves() + (self.6.leaves() + (self.7.leaves() + self.8.leaves()))), other.3.leaves(), other.4.leaves() + (other.5.leaves() + (other.6.leaves() + (other.7.leaves() + other.8.leaves()))));
            self.4.leaves_shaped();
            other.4.leaves_shaped();
            lemma_pair_ordering(self.4.leaves(), self.5.leaves() + (self.6.leaves() + (self.7.leaves() + self.8.leaves())), other.4.leaves(), other.5.leaves() + (other.6.leaves() + (other.7.leaves() + other.8.leaves())));
            self.5.leaves_shaped();
            other.5.leaves_shaped();
            lemma_pair_ordering(self.5.leaves(), self.6.leaves() + (self.7.leaves() + self.8.leaves()), other.5.leaves(), other.6.leaves() + (other.7.leaves() + other.8.leaves()));
            self.6.leaves_shaped();
            other.6.leaves_shaped();
            lemma_pair_ordering(self.6.leaves(), self.7.leaves() + self.8.leaves(), other.6.leaves(), other.7.leaves() + other.8.leaves());
            self.7.leaves_shaped();
            other.7.leaves_shaped();
            lemma_pair_ordering(self.7.leaves(), self.8.leaves(), other.7.leaves(), other.8.leaves());
        }
        match self.0.cmp_key(&other.0) {
            Ordering::Equal => {},
            c => {
                return c;
            },
        }
        match self.1.cmp_key(&other.1) {
            Ordering::Equal => {},
            c => {
                return c;
            },
        }
        match self.2.cmp_key(&other.2) {
            Ordering::Equal => {},
            c => {
                return c;
            },
        }
        match self.3.cmp_key(&other.3) {
            Ordering::Equal => {},
            c => {
                return c;
            },
        }
        match self.4.cmp_key(&other.4) {
            Ordering::Equal => {},
            c => {
                return c;
            },
        }
        match self.5.cmp_key(&other.5) {
            Ordering::Equal => {},
            c => {
                return c;
            },
        }
        match self.6.cmp_key(&other.6) {
            Ordering::Equal => {},
            c => {
                return c;
            },
        }
        match self.7.cmp_key(&other.7) {
            Ordering::Equal => {},
            c => {
                return c;
            },
        }
        self.8.cmp_key(&other.8)
    }

    fn spare(&self) -> (r: u32) {
        0
    }

    fn from_radix(radix: u64, spare: u32) -> (r: Option<Self>) {
        None
    }
}

impl<A: Key, B: Key, C: Key, D: Key, E: Key, F: Key, G: Key, H: Key, I: Key, J: Key> Key for (A, B, C, D, E, F, G, H, I, J) {
    type Slots<'a> = SlotPair<A::Slots<'a>, SlotPair<B::Slots<'a>, SlotPair<C::Slots<'a>, SlotPair<D::Slots<'a>, SlotPair<E::Slots<'a>, SlotPair<F::Slots<'a>, SlotPair<G::Slots<'a>, SlotPair<H::Slots<'a>, SlotPair<I::Slots<'a>, J::Slots<'a>>>>>>>>>>;

    open spec fn parts() -> Seq<Part> {
        A::parts() + (B::parts() + (C::parts() + (D::parts() + (E::parts() + (F::parts() + (G::parts() + (H::parts() + (I::parts() + J::parts()))))))))
    }

    open spec fn leaves(&self) -> Seq<LeafModel> {
        self.0.leaves() + (self.1.leaves() + (self.2.leaves() + (self.3.leaves() + (self.4.leaves() + (self.5.leaves() + (self.6.leaves() + (self.7.leaves() + (self.8.leaves() + self.9.leaves()))))))))
    }

    proof fn leaves_shaped(&self) {
        self.0.leaves_shaped();
        self.1.leaves_shaped();
        self.2.leaves_shaped();
        self.3.leaves_shaped();
        self.4.leaves_shaped();
        self.5.leaves_shaped();
        self.6.leaves_shaped();
        self.7.leaves_shaped();
        self.8.leaves_shaped();
        self.9.leaves_shaped();
        lemma_shaped_add(self.8.leaves(), I::parts(), self.9.leaves(), J::parts());
        lemma_shaped_add(self.7.leaves(), H::parts(), self.8.leaves() + self.9.leaves(), I::parts() + J::parts());
        lemma_shaped_add(self.6.leaves(), G::parts(), self.7.leaves() + (self.8.leaves() + self.9.leaves()), H::parts() + (I::parts() + J::parts()));
        lemma_shaped_add(self.5.leaves(), F::parts(), self.6.leaves() + (self.7.leaves() + (self.8.leaves() + self.9.leaves())), G::parts() + (H::parts() + (I::parts() + J::parts())));
        lemma_shaped_add(self.4.leaves(), E::parts(), self.5.leaves() + (self.6.leaves() + (self.7.leaves() + (self.8.leaves() + self.9.leaves()))), F::parts() + (G::parts() + (H::parts() + (I::parts() + J::parts()))));
        lemma_shaped_add(self.3.leaves(), D::parts(), self.4.leaves() + (self.5.leaves() + (self.6.leaves() + (self.7.leaves() + (self.8.leaves() + self.9.leaves())))), E::parts() + (F::parts() + (G::parts() + (H::parts() + (I::parts() + J::parts())))));
        lemma_shaped_add(self.2.leaves(), C::parts(), self.3.leaves() + (self.4.leaves() + (self.5.leaves() + (self.6.leaves() + (self.7.leaves() + (self.8.leaves() + self.9.leaves()))))), D::parts() + (E::parts() + (F::parts() + (G::parts() + (H::parts() + (I::parts() + J::parts()))))));
        lemma_shaped_add(self.1.leaves(), B::parts(), self.2.leaves() + (self.3.leaves() + (self.4.leaves() + (self.5.leaves() + (self.6.leaves() + (self.7.leaves() + (self.8.leaves() + self.9.leaves())))))), C::parts() + (D::parts() + (E::parts() + (F::parts() + (G::parts() + (H::parts() + (I::parts() + J::parts())))))));
        lemma_shaped_add(self.0.leaves(), A::parts(), self.1.leaves() + (self.2.leaves() + (self.3.leaves() + (self.4.leaves() + (self.5.leaves() + (self.6.leaves() + (self.7.leaves() + (self.8.leaves() + self.9.leaves()))))))), B::parts() + (C::parts() + (D::parts() + (E::parts() + (F::parts() + (G::parts() + (H::parts() + (I::parts() + J::parts()))))))));
    }

    proof fn slots_shaped<'a>() {
        A::slots_shaped();
        B::slots_shaped();
        C::slots_shaped();
        D::slots_shaped();
        E::slots_shaped();
        F::slots_shaped();
        G::slots_shaped();
        H::slots_shaped();
        I::slots_shaped();
        J::slots_shaped();
        lemma_kinds_add(I::parts(), J::parts());
        lemma_pair_kinds::<I::Slots<'a>, J::Slots<'a>>();
        lemma_kinds_add(H::parts(), I::parts() + J::parts());
        lemma_pair_kinds::<H::Slots<'a>, SlotPair<I::Slots<'a>, J::Slots<'a>>>();
        lemma_kinds_add(G::parts(), H::parts() + (I::parts() + J::parts()));
        lemma_pair_kinds::<G::Slots<'a>, SlotPair<H::Slots<'a>, SlotPair<I::Slots<'a>, J::Slots<'a>>>>();
        lemma_kinds_add(F::parts(), G::parts() + (H::parts() + (I::parts() + J::parts())));
        lemma_pair_kinds::<F::Slots<'a>, SlotPair<G::Slots<'a>, SlotPair<H::Slots<'a>, SlotPair<I::Slots<'a>, J::Slots<'a>>>>>();
        lemma_kinds_add(E::parts(), F::parts() + (G::parts() + (H::parts() + (I::parts() + J::parts()))));
        lemma_pair_kinds::<E::Slots<'a>, SlotPair<F::Slots<'a>, SlotPair<G::Slots<'a>, SlotPair<H::Slots<'a>, SlotPair<I::Slots<'a>, J::Slots<'a>>>>>>();
        lemma_kinds_add(D::parts(), E::parts() + (F::parts() + (G::parts() + (H::parts() + (I::parts() + J::parts())))));
        lemma_pair_kinds::<D::Slots<'a>, SlotPair<E::Slots<'a>, SlotPair<F::Slots<'a>, SlotPair<G::Slots<'a>, SlotPair<H::Slots<'a>, SlotPair<I::Slots<'a>, J::Slots<'a>>>>>>>();
        lemma_kinds_add(C::parts(), D::parts() + (E::parts() + (F::parts() + (G::parts() + (H::parts() + (I::parts() + J::parts()))))));
        lemma_pair_kinds::<C::Slots<'a>, SlotPair<D::Slots<'a>, SlotPair<E::Slots<'a>, SlotPair<F::Slots<'a>, SlotPair<G::Slots<'a>, SlotPair<H::Slots<'a>, SlotPair<I::Slots<'a>, J::Slots<'a>>>>>>>>();
        lemma_kinds_add(B::parts(), C::parts() + (D::parts() + (E::parts() + (F::parts() + (G::parts() + (H::parts() + (I::parts() + J::parts())))))));
        lemma_pair_kinds::<B::Slots<'a>, SlotPair<C::Slots<'a>, SlotPair<D::Slots<'a>, SlotPair<E::Slots<'a>, SlotPair<F::Slots<'a>, SlotPair<G::Slots<'a>, SlotPair<H::Slots<'a>, SlotPair<I::Slots<'a>, J::Slots<'a>>>>>>>>>();
        lemma_kinds_add(A::parts(), B::parts() + (C::parts() + (D::parts() + (E::parts() + (F::parts() + (G::parts() + (H::parts() + (I::parts() + J::parts()))))))));
        lemma_pair_kinds::<A::Slots<'a>, SlotPair<B::Slots<'a>, SlotPair<C::Slots<'a>, SlotPair<D::Slots<'a>, SlotPair<E::Slots<'a>, SlotPair<F::Slots<'a>, SlotPair<G::Slots<'a>, SlotPair<H::Slots<'a>, SlotPair<I::Slots<'a>, J::Slots<'a>>>>>>>>>>();
    }

    fn shape() -> (r: Shape) {
        let s = J::shape();
        let s = Shape::concat(&I::shape(), &s);
        let s = Shape::concat(&H::shape(), &s);
        let s = Shape::concat(&G::shape(), &s);
        let s = Shape::concat(&F::shape(), &s);
        let s = Shape::concat(&E::shape(), &s);
        let s = Shape::concat(&D::shape(), &s);
        let s = Shape::concat(&C::shape(), &s);
        let s = Shape::concat(&B::shape(), &s);
        Shape::concat(&A::shape(), &s)
    }

    fn leaf_count() -> (r: usize) {
        let n: usize = A::leaf_count() + <(B, C, D, E, F, G, H, I, J) as Key>::leaf_count();
        if n > MAX_PARTS {
            MAX_PARTS
        } else {
            n
        }
    }

    fn descending(p: usize) -> (r: bool) {
        let n: usize = A::leaf_count();
        if p < n {
            A::descending(p)
        } else {
            <(B, C, D, E, F, G, H, I, J) as Key>::descending(p - n)
        }
    }

    fn write_parts<'a, S: PartSink<'a>>(&'a self, flip: bool, sink: &mut S) {
        let ghost l0 = sink.log();
        self.0.write_parts(flip, sink);
        let ghost l1 = sink.log();
        self.1.write_parts(flip, sink);
        let ghost l2 = sink.log();
        self.2.write_parts(flip, sink);
        let ghost l3 = sink.log();
        self.3.write_parts(flip, sink);
        let ghost l4 = sink.log();
        self.4.write_parts(flip, sink);
        let ghost l5 = sink.log();
        self.5.write_parts(flip, sink);
        let ghost l6 = sink.log();
        self.6.write_parts(flip, sink);
        let ghost l7 = sink.log();
        self.7.write_parts(flip, sink);
        let ghost l8 = sink.log();
        self.8.write_parts(flip, sink);
        let ghost l9 = sink.log();
        self.9.write_parts(flip, sink);
        proof {
            lemma_turned_add(self.8.leaves(), self.9.leaves(), flip);
            lemma_log_add(l8, turned(self.8.leaves(), flip), turned(self.9.leaves(), flip));
            lemma_turned_add(self.7.leaves(), self.8.leaves() + self.9.leaves(), flip);
            lemma_log_add(l7, turned(self.7.leaves(), flip), turned(self.8.leaves() + self.9.leaves(), flip));
            lemma_turned_add(self.6.leaves(), self.7.leaves() + (self.8.leaves() + self.9.leaves()), flip);
            lemma_log_add(l6, turned(self.6.leaves(), flip), turned(self.7.leaves() + (self.8.leaves() + self.9.leaves()), flip));
            lemma_turned_add(self.5.leaves(), self.6.leaves() + (self.7.leaves() + (self.8.leaves() + self.9.leaves())), flip);
            lemma_log_add(l5, turned(self.5.leaves(), flip), turned(self.6.leaves() + (self.7.leaves() + (self.8.leaves() + self.9.leaves())), flip));
            lemma_turned_add(self.4.leaves(), self.5.leaves() + (self.6.leaves() + (self.7.leaves() + (self.8.leaves() + self.9.leaves()))), flip);
            lemma_log_add(l4, turned(self.4.leaves(), flip), turned(self.5.leaves() + (self.6.leaves() + (self.7.leaves() + (self.8.leaves() + self.9.leaves()))), flip));
            lemma_turned_add(self.3.leaves(), self.4.leaves() + (self.5.leaves() + (self.6.leaves() + (self.7.leaves() + (self.8.leaves() + self.9.leaves())))), flip);
            lemma_log_add(l3, turned(self.3.leaves(), flip), turned(self.4.leaves() + (self.5.leaves() + (self.6.leaves() + (self.7.leaves() + (self.8.leaves() + self.9.leaves())))), flip));
            lemma_turned_add(self.2.leaves(), self.3.leaves() + (self.4.leaves() + (self.5.leaves() + (self.6.leaves() + (self.7.leaves() + (self.8.leaves() + self.9.leaves()))))), flip);
            lemma_log_add(l2, turned(self.2.leaves(), flip), turned(self.3.leaves() + (self.4.leaves() + (self.5.leaves() + (self.6.leaves() + (self.7.leaves() + (self.8.leaves() + self.9.leaves()))))), flip));
            lemma_turned_add(self.1.leaves(), self.2.leaves() + (self.3.leaves() + (self.4.leaves() + (self.5.leaves() + (self.6.leaves() + (self.7.leaves() + (self.8.leaves() + self.9.leaves())))))), flip);
            lemma_log_add(l1, turned(self.1.leaves(), flip), turned(self.2.leaves() + (self.3.leaves() + (self.4.leaves() + (self.5.leaves() + (self.6.leaves() + (self.7.leaves() + (self.8.leaves() + self.9.leaves())))))), flip));
            lemma_turned_add(self.0.leaves(), self.1.leaves() + (self.2.leaves() + (self.3.leaves() + (self.4.leaves() + (self.5.leaves() + (self.6.leaves() + (self.7.leaves() + (self.8.leaves() + self.9.leaves()))))))), flip);
            lemma_log_add(l0, turned(self.0.leaves(), flip), turned(self.1.leaves() + (self.2.leaves() + (self.3.leaves() + (self.4.leaves() + (self.5.leaves() + (self.6.leaves() + (self.7.leaves() + (self.8.leaves() + self.9.leaves()))))))), flip));
        }
    }

    fn cmp_key(&self, other: &Self) -> (r: Ordering) {
        proof {
            self.0.leaves_shaped();
            other.0.leaves_shaped();
            lemma_pair_ordering(self.0.leaves(), self.1.leaves() + (self.2.leaves() + (self.3.leaves() + (self.4.leaves() + (self.5.leaves() + (self.6.leaves() + (self.7.leaves() + (self.8.leaves() + self.9.leaves()))))))), other.0.leaves(), other.1.leaves() + (other.2.leaves() + (other.3.leaves() + (other.4.leaves() + (other.5.leaves() + (other.6.leaves() + (other.7.leaves() + (other.8.leaves() + other.9.leaves()))))))));
            self.1.leaves_shaped();
            other.1.leaves_shaped();
            lemma_pair_ordering(self.1.leaves(), self.2.leaves() + (self.3.leaves() + (self.4.leaves() + (self.5.leaves() + (self.6.leaves() + (self.7.leaves() + (self.8.leaves() + self.9.leaves())))))), other.1.leaves(), other.2.leaves() + (other.3.leaves() + (other.4.leaves() + (other.5.leaves() + (other.6.leaves() + (other.7.leaves() + (other.8.leaves() + other.9.leaves())))))));
            self.2.leaves_shaped();
            other.2.leaves_shaped();
            lemma_pair_ordering(self.2.leaves(), self.3.leaves() + (self.4.leaves() + (self.5.leaves() + (self.6.leaves() + (self.7.leaves() + (self.8.leaves() + self.9.leaves()))))), other.2.leaves(), other.3.leaves() + (other.4.leaves() + (other.5.leaves() + (other.6.leaves() + (other.7.leaves() + (other.8.leaves() + other.9.leaves()))))));
            self.3.leaves_shaped();
            other.3.leaves_shaped();
            lemma_pair_ordering(self.3.leaves(), self.4.leaves() + (self.5.leaves() + (self.6.leaves() + (self.7.leaves() + (self.8.leaves() + self.9.leaves())))), other.3.leaves(), other.4.leaves() + (other.5.leaves() + (other.6.leaves() + (other.7.leaves() + (other.8.leaves() + other.9.leaves())))));
            self.4.leaves_shaped();
            other.4.leaves_shaped();
            lemma_pair_ordering(self.4.leaves(), self.5.leaves() + (self.6.leaves() + (self.7.leaves() + (self.8.leaves() + self.9.leaves()))), other.4.leaves(), other.5.leaves() + (other.6.leaves() + (other.7.leaves() + (other.8.leaves() + other.9.leaves()))));
            self.5.leaves_shaped();
            other.5.leaves_shaped();
            lemma_pair_ordering(self.5.leaves(), self.6.leaves() + (self.7.leaves() + (self.8.leaves() + self.9.leaves())), other.5.leaves(), other.6.leaves() + (other.7.leaves() + (other.8.leaves() + other.9.leaves())));
            self.6.leaves_shaped();
            other.6.leaves_shaped();
            lemma_pair_ordering(self.6.leaves(), self.7.leaves() + (self.8.leaves() + self.9.leaves()), other.6.leaves(), other.7.leaves() + (other.8.leaves() + other.9.leaves()));
            self.7.leaves_shaped();
            other.7.leaves_shaped();
            lemma_pair_ordering(self.7.leaves(), self.8.leaves() + self.9.leaves(), other.7.leaves(), other.8.leaves() + other.9.leaves());
            self.8.leaves_shaped();
            other.8.leaves_shaped();
            lemma_pair_ordering(self.8.leaves(), self.9.leaves(), other.8.leaves(), other.9.leaves());
        }
        match self.0.cmp_key(&other.0) {
            Ordering::Equal => {},
            c => {
                return c;
            },
        }
        match self.1.cmp_key(&other.1) {
            Ordering::Equal => {},
            c => {
                return c;
            },
        }
        match self.2.cmp_key(&other.2) {
            Ordering::Equal => {},
            c => {
                return c;
            },
        }
        match self.3.cmp_key(&other.3) {
            Ordering::Equal => {},
            c => {
                return c;
            },
        }
        match self.4.cmp_key(&other.4) {
            Ordering::Equal => {},
            c => {
                return c;
            },
        }
        match self.5.cmp_key(&other.5) {
            Ordering::Equal => {},
            c => {
                return c;
            },
        }
        match self.6.cmp_key(&other.6) {
            Ordering::Equal => {},
            c => {
                return c;
            },
        }
        match self.7.cmp_key(&other.7) {
            Ordering::Equal => {},
            c => {
                return c;
            },
        }
        match self.8.cmp_key(&other.8) {
            Ordering::Equal => {},
            c => {
                return c;
            },
        }
        self.9.cmp_key(&other.9)
    }

    fn spare(&self) -> (r: u32) {
        0
    }

    fn from_radix(radix: u64, spare: u32) -> (r: Option<Self>) {
        None
    }
}

impl<A: Key, B: Key, C: Key, D: Key, E: Key, F: Key, G: Key, H: Key, I: Key, J: Key, K: Key> Key for (A, B, C, D, E, F, G, H, I, J, K) {
    type Slots<'a> = SlotPair<A::Slots<'a>, SlotPair<B::Slots<'a>, SlotPair<C::Slots<'a>, SlotPair<D::Slots<'a>, SlotPair<E::Slots<'a>, SlotPair<F::Slots<'a>, SlotPair<G::Slots<'a>, SlotPair<H::Slots<'a>, SlotPair<I::Slots<'a>, SlotPair<J::Slots<'a>, K::Slots<'a>>>>>>>>>>>;

    open spec fn parts() -> Seq<Part> {
        A::parts() + (B::parts() + (C::parts() + (D::parts() + (E::parts() + (F::parts() + (G::parts() + (H::parts() + (I::parts() + (J::parts() + K::parts())))))))))
    }

    open spec fn leaves(&self) -> Seq<LeafModel> {
        self.0.leaves() + (self.1.leaves() + (self.2.leaves() + (self.3.leaves() + (self.4.leaves() + (self.5.leaves() + (self.6.leaves() + (self.7.leaves() + (self.8.leaves() + (self.9.leaves() + self.10.leaves())))))))))
    }

    proof fn leaves_shaped(&self) {
        self.0.leaves_shaped();
        self.1.leaves_shaped();
        self.2.leaves_shaped();
        self.3.leaves_shaped();
        self.4.leaves_shaped();
        self.5.leaves_shaped();
        self.6.leaves_shaped();
        self.7.leaves_shaped();
        self.8.leaves_shaped();
        self.9.leaves_shaped();
        self.10.leaves_shaped();
        lemma_shaped_add(self.9.leaves(), J::parts(), self.10.leaves(), K::parts());
        lemma_shaped_add(self.8.leaves(), I::parts(), self.9.leaves() + self.10.leaves(), J::parts() + K::parts());
        lemma_shaped_add(self.7.leaves(), H::parts(), self.8.leaves() + (self.9.leaves() + self.10.leaves()), I::parts() + (J::parts() + K::parts()));
        lemma_shaped_add(self.6.leaves(), G::parts(), self.7.leaves() + (self.8.leaves() + (self.9.leaves() + self.10.leaves())), H::parts() + (I::parts() + (J::parts() + K::parts())));
        lemma_shaped_add(self.5.leaves(), F::parts(), self.6.leaves() + (self.7.leaves() + (self.8.leaves() + (self.9.leaves() + self.10.leaves()))), G::parts() + (H::parts() + (I::parts() + (J::parts() + K::parts()))));
        lemma_shaped_add(self.4.leaves(), E::parts(), self.5.leaves() + (self.6.leaves() + (self.7.leaves() + (self.8.leaves() + (self.9.leaves() + self.10.leaves())))), F::parts() + (G::parts() + (H::parts() + (I::parts() + (J::parts() + K::parts())))));
        lemma_shaped_add(self.3.leaves(), D::parts(), self.4.leaves() + (self.5.leaves() + (self.6.leaves() + (self.7.leaves() + (self.8.leaves() + (self.9.leaves() + self.10.leaves()))))), E::parts() + (F::parts() + (G::parts() + (H::parts() + (I::parts() + (J::parts() + K::parts()))))));
        lemma_shaped_add(self.2.leaves(), C::parts(), self.3.leaves() + (self.4.leaves() + (self.5.leaves() + (self.6.leaves() + (self.7.leaves() + (self.8.leaves() + (self.9.leaves() + self.10.leaves())))))), D::parts() + (E::parts() + (F::parts() + (G::parts() + (H::parts() + (I::parts() + (J::parts() + K::parts())))))));
        lemma_shaped_add(self.1.leaves(), B::parts(), self.2.leaves() + (self.3.leaves() + (self.4.leaves() + (self.5.leaves() + (self.6.leaves() + (self.7.leaves() + (self.8.leaves() + (self.9.leaves() + self.10.leaves()))))))), C::parts() + (D::parts() + (E::parts() + (F::parts() + (G::parts() + (H::parts() + (I::parts() + (J::parts() + K::parts()))))))));
        lemma_shaped_add(self.0.leaves(), A::parts(), self.1.leaves() + (self.2.leaves() + (self.3.leaves() + (self.4.leaves() + (self.5.leaves() + (self.6.leaves() + (self.7.leaves() + (self.8.leaves() + (self.9.leaves() + self.10.leaves())))))))), B::parts() + (C::parts() + (D::parts() + (E::parts() + (F::parts() + (G::parts() + (H::parts() + (I::parts() + (J::parts() + K::parts())))))))));
    }

    proof fn slots_shaped<'a>() {
        A::slots_shaped();
        B::slots_shaped();
        C::slots_shaped();
        D::slots_shaped();
        E::slots_shaped();
        F::slots_shaped();
        G::slots_shaped();
        H::slots_shaped();
        I::slots_shaped();
        J::slots_shaped();
        K::slots_shaped();
        lemma_kinds_add(J::parts(), K::parts());
        lemma_pair_kinds::<J::Slots<'a>, K::Slots<'a>>();
        lemma_kinds_add(I::parts(), J::parts() + K::parts());
        lemma_pair_kinds::<I::Slots<'a>, SlotPair<J::Slots<'a>, K::Slots<'a>>>();
        lemma_kinds_add(H::parts(), I::parts() + (J::parts() + K::parts()));
        lemma_pair_kinds::<H::Slots<'a>, SlotPair<I::Slots<'a>, SlotPair<J::Slots<'a>, K::Slots<'a>>>>();
        lemma_kinds_add(G::parts(), H::parts() + (I::parts() + (J::parts() + K::parts())));
        lemma_pair_kinds::<G::Slots<'a>, SlotPair<H::Slots<'a>, SlotPair<I::Slots<'a>, SlotPair<J::Slots<'a>, K::Slots<'a>>>>>();
        lemma_kinds_add(F::parts(), G::parts() + (H::parts() + (I::parts() + (J::parts() + K::parts()))));
        lemma_pair_kinds::<F::Slots<'a>, SlotPair<G::Slots<'a>, SlotPair<H::Slots<'a>, SlotPair<I::Slots<'a>, SlotPair<J::Slots<'a>, K::Slots<'a>>>>>>();
        lemma_kinds_add(E::parts(), F::parts() + (G::parts() + (H::parts() + (I::parts() + (J::parts() + K::parts())))));
        lemma_pair_kinds::<E::Slots<'a>, SlotPair<F::Slots<'a>, SlotPair<G::Slots<'a>, SlotPair<H::Slots<'a>, SlotPair<I::Slots<'a>, SlotPair<J::Slots<'a>, K::Slots<'a>>>>>>>();
        lemma_kinds_add(D::parts(), E::parts() + (F::parts() + (G::parts() + (H::parts() + (I::parts() + (J::parts() + K::parts()))))));
        lemma_pair_kinds::<D::Slots<'a>, SlotPair<E::Slots<'a>, SlotPair<F::Slots<'a>, SlotPair<G::Slots<'a>, SlotPair<H::Slots<'a>, SlotPair<I::Slots<'a>, SlotPair<J::Slots<'a>, K::Slots<'a>>>>>>>>();
        lemma_kinds_add(C::parts(), D::parts() + (E::parts() + (F::parts() + (G::parts() + (H::parts() + (I::parts() + (J::parts() + K::parts())))))));
        lemma_pair_kinds::<C::Slots<'a>, SlotPair<D::Slots<'a>, SlotPair<E::Slots<'a>, SlotPair<F::Slots<'a>, SlotPair<G::Slots<'a>, SlotPair<H::Slots<'a>, SlotPair<I::Slots<'a>, SlotPair<J::Slots<'a>, K::Slots<'a>>>>>>>>>();
        lemma_kinds_add(B::parts(), C::parts() + (D::parts() + (E::parts() + (F::parts() + (G::parts() + (H::parts() + (I::parts() + (J::parts() + K::parts()))))))));
        lemma_pair_kinds::<B::Slots<'a>, SlotPair<C::Slots<'a>, SlotPair<D::Slots<'a>, SlotPair<E::Slots<'a>, SlotPair<F::Slots<'a>, SlotPair<G::Slots<'a>, SlotPair<H::Slots<'a>, SlotPair<I::Slots<'a>, SlotPair<J::Slots<'a>, K::Slots<'a>>>>>>>>>>();
        lemma_kinds_add(A::parts(), B::parts() + (C::parts() + (D::parts() + (E::parts() + (F::parts() + (G::parts() + (H::parts() + (I::parts() + (J::parts() + K::parts())))))))));
        lemma_pair_kinds::<A::Slots<'a>, SlotPair<B::Slots<'a>, SlotPair<C::Slots<'a>, SlotPair<D::Slots<'a>, SlotPair<E::Slots<'a>, SlotPair<F::Slots<'a>, SlotPair<G::Slots<'a>, SlotPair<H::Slots<'a>, SlotPair<I::Slots<'a>, SlotPair<J::Slots<'a>, K::Slots<'a>>>>>>>>>>>();
    }

    fn shape() -> (r: Shape) {
        let s = K::shape();
        let s = Shape::concat(&J::shape(), &s);
        let s = Shape::concat(&I::shape(), &s);
        let s = Shape::concat(&H::shape(), &s);
        let s = Shape::concat(&G::shape(), &s);
        let s = Shape::concat(&F::shape(), &s);
        let s = Shape::concat(&E::shape(), &s);
        let s = Shape::concat(&D::shape(), &s);
        let s = Shape::concat(&C::shape(), &s);
        let s = Shape::concat(&B::shape(), &s);
        Shape::concat(&A::shape(), &s)
    }

    fn leaf_count() -> (r: usize) {
        let n: usize = A::leaf_count() + <(B, C, D, E, F, G, H, I, J, K) as Key>::leaf_count();
        if n > MAX_PARTS {
            MAX_PARTS
        } else {
            n
        }
    }

    fn descending(p: usize) -> (r: bool) {
        let n: usize = A::leaf_count();
        if p < n {
            A::descending(p)
        } else {
            <(B, C, D, E, F, G, H, I, J, K) as Key>::descending(p - n)
        }
    }

    fn write_parts<'a, S: PartSink<'a>>(&'a self, flip: bool, sink: &mut S) {
        let ghost l0 = sink.log();
        self.0.write_parts(flip, sink);
        let ghost l1 = sink.log();
        self.1.write_parts(flip, sink);
        let ghost l2 = sink.log();
        self.2.write_parts(flip, sink);
        let ghost l3 = sink.log();
        self.3.write_parts(flip, sink);
        let ghost l4 = sink.log();
        self.4.write_parts(flip, sink);
        let ghost l5 = sink.log();
        self.5.write_parts(flip, sink);
        let ghost l6 = sink.log();
        self.6.write_parts(flip, sink);
        let ghost l7 = sink.log();
        self.7.write_parts(flip, sink);
        let ghost l8 = sink.log();
        self.8.write_parts(flip, sink);
        let ghost l9 = sink.log();
        self.9.write_parts(flip, sink);
        let ghost l10 = sink.log();
        self.10.write_parts(flip, sink);
        proof {
            lemma_turned_add(self.9.leaves(), self.10.leaves(), flip);
            lemma_log_add(l9, turned(self.9.leaves(), flip), turned(self.10.leaves(), flip));
            lemma_turned_add(self.8.leaves(), self.9.leaves() + self.10.leaves(), flip);
            lemma_log_add(l8, turned(self.8.leaves(), flip), turned(self.9.leaves() + self.10.leaves(), flip));
            lemma_turned_add(self.7.leaves(), self.8.leaves() + (self.9.leaves() + self.10.leaves()), flip);
            lemma_log_add(l7, turned(self.7.leaves(), flip), turned(self.8.leaves() + (self.9.leaves() + self.10.leaves()), flip));
            lemma_turned_add(self.6.leaves(), self.7.leaves() + (self.8.leaves() + (self.9.leaves() + self.10.leaves())), flip);
            lemma_log_add(l6, turned(self.6.leaves(), flip), turned(self.7.leaves() + (self.8.leaves() + (self.9.leaves() + self.10.leaves())), flip));
            lemma_turned_add(self.5.leaves(), self.6.leaves() + (self.7.leaves() + (self.8.leaves() + (self.9.leaves() + self.10.leaves()))), flip);
            lemma_log_add(l5, turned(self.5.leaves(), flip), turned(self.6.leaves() + (self.7.leaves() + (self.8.leaves() + (self.9.leaves() + self.10.leaves()))), flip));
            lemma_turned_add(self.4.leaves(), self.5.leaves() + (self.6.leaves() + (self.7.leaves() + (self.8.leaves() + (self.9.leaves() + self.10.leaves())))), flip);
            lemma_log_add(l4, turned(self.4.leaves(), flip), turned(self.5.leaves() + (self.6.leaves() + (self.7.leaves() + (self.8.leaves() + (self.9.leaves() + self.10.leaves())))), flip));
            lemma_turned_add(self.3.leaves(), self.4.leaves() + (self.5.leaves() + (self.6.leaves() + (self.7.leaves() + (self.8.leaves() + (self.9.leaves() + self.10.leaves()))))), flip);
            lemma_log_add(l3, turned(self.3.leaves(), flip), turned(self.4.leaves() + (self.5.leaves() + (self.6.leaves() + (self.7.leaves() + (self.8.leaves() + (self.9.leaves() + self.10.leaves()))))), flip));
            lemma_turned_add(self.2.leaves(), self.3.leaves() + (self.4.leaves() + (self.5.leaves() + (self.6.leaves() + (self.7.leaves() + (self.8.leaves() + (self.9.leaves() + self.10.leaves())))))), flip);
            lemma_log_add(l2, turned(self.2.leaves(), flip), turned(self.3.leaves() + (self.4.leaves() + (self.5.leaves() + (self.6.leaves() + (self.7.leaves() + (self.8.leaves() + (self.9.leaves() + self.10.leaves())))))), flip));
            lemma_turned_add(self.1.leaves(), self.2.leaves() + (self.3.leaves() + (self.4.leaves() + (self.5.leaves() + (self.6.leaves() + (self.7.leaves() + (self.8.leaves() + (self.9.leaves() + self.10.leaves()))))))), flip);
            lemma_log_add(l1, turned(self.1.leaves(), flip), turned(self.2.leaves() + (self.3.leaves() + (self.4.leaves() + (self.5.leaves() + (self.6.leaves() + (self.7.leaves() + (self.8.leaves() + (self.9.leaves() + self.10.leaves()))))))), flip));
            lemma_turned_add(self.0.leaves(), self.1.leaves() + (self.2.leaves() + (self.3.leaves() + (self.4.leaves() + (self.5.leaves() + (self.6.leaves() + (self.7.leaves() + (self.8.leaves() + (self.9.leaves() + self.10.leaves())))))))), flip);
            lemma_log_add(l0, turned(self.0.leaves(), flip), turned(self.1.leaves() + (self.2.leaves() + (self.3.leaves() + (self.4.leaves() + (self.5.leaves() + (self.6.leaves() + (self.7.leaves() + (self.8.leaves() + (self.9.leaves() + self.10.leaves())))))))), flip));
        }
    }

    fn cmp_key(&self, other: &Self) -> (r: Ordering) {
        proof {
            self.0.leaves_shaped();
            other.0.leaves_shaped();
            lemma_pair_ordering(self.0.leaves(), self.1.leaves() + (self.2.leaves() + (self.3.leaves() + (self.4.leaves() + (self.5.leaves() + (self.6.leaves() + (self.7.leaves() + (self.8.leaves() + (self.9.leaves() + self.10.leaves())))))))), other.0.leaves(), other.1.leaves() + (other.2.leaves() + (other.3.leaves() + (other.4.leaves() + (other.5.leaves() + (other.6.leaves() + (other.7.leaves() + (other.8.leaves() + (other.9.leaves() + other.10.leaves())))))))));
            self.1.leaves_shaped();
            other.1.leaves_shaped();
            lemma_pair_ordering(self.1.leaves(), self.2.leaves() + (self.3.leaves() + (self.4.leaves() + (self.5.leaves() + (self.6.leaves() + (self.7.leaves() + (self.8.leaves() + (self.9.leaves() + self.10.leaves()))))))), other.1.leaves(), other.2.leaves() + (other.3.leaves() + (other.4.leaves() + (other.5.leaves() + (other.6.leaves() + (other.7.leaves() + (other.8.leaves() + (other.9.leaves() + other.10.leaves()))))))));
            self.2.leaves_shaped();
            other.2.leaves_shaped();
            lemma_pair_ordering(self.2.leaves(), self.3.leaves() + (self.4.leaves() + (self.5.leaves() + (self.6.leaves() + (self.7.leaves() + (self.8.leaves() + (self.9.leaves() + self.10.leaves())))))), other.2.leaves(), other.3.leaves() + (other.4.leaves() + (other.5.leaves() + (other.6.leaves() + (other.7.leaves() + (other.8.leaves() + (other.9.leaves() + other.10.leaves())))))));
            self.3.leaves_shaped();
            other.3.leaves_shaped();
            lemma_pair_ordering(self.3.leaves(), self.4.leaves() + (self.5.leaves() + (self.6.leaves() + (self.7.leaves() + (self.8.leaves() + (self.9.leaves() + self.10.leaves()))))), other.3.leaves(), other.4.leaves() + (other.5.leaves() + (other.6.leaves() + (other.7.leaves() + (other.8.leaves() + (other.9.leaves() + other.10.leaves()))))));
            self.4.leaves_shaped();
            other.4.leaves_shaped();
            lemma_pair_ordering(self.4.leaves(), self.5.leaves() + (self.6.leaves() + (self.7.leaves() + (self.8.leaves() + (self.9.leaves() + self.10.leaves())))), other.4.leaves(), other.5.leaves() + (other.6.leaves() + (other.7.leaves() + (other.8.leaves() + (other.9.leaves() + other.10.leaves())))));
            self.5.leaves_shaped();
            other.5.leaves_shaped();
            lemma_pair_ordering(self.5.leaves(), self.6.leaves() + (self.7.leaves() + (self.8.leaves() + (self.9.leaves() + self.10.leaves()))), other.5.leaves(), other.6.leaves() + (other.7.leaves() + (other.8.leaves() + (other.9.leaves() + other.10.leaves()))));
            self.6.leaves_shaped();
            other.6.leaves_shaped();
            lemma_pair_ordering(self.6.leaves(), self.7.leaves() + (self.8.leaves() + (self.9.leaves() + self.10.leaves())), other.6.leaves(), other.7.leaves() + (other.8.leaves() + (other.9.leaves() + other.10.leaves())));
            self.7.leaves_shaped();
            other.7.leaves_shaped();
            lemma_pair_ordering(self.7.leaves(), self.8.leaves() + (self.9.leaves() + self.10.leaves()), other.7.leaves(), other.8.leaves() + (other.9.leaves() + other.10.leaves()));
            self.8.leaves_shaped();
            other.8.leaves_shaped();
            lemma_pair_ordering(self.8.leaves(), self.9.leaves() + self.10.leaves(), other.8.leaves(), other.9.leaves() + other.10.leaves());
            self.9.leaves_shaped();
            other.9.leaves_shaped();
            lemma_pair_ordering(self.9.leaves(), self.10.leaves(), other.9.leaves(), other.10.leaves());
        }
        match self.0.cmp_key(&other.0) {
            Ordering::Equal => {},
            c => {
                return c;
            },
        }
        match self.1.cmp_key(&other.1) {
            Ordering::Equal => {},
            c => {
                return c;
            },
        }
        match self.2.cmp_key(&other.2) {
            Ordering::Equal => {},
            c => {
                return c;
            },
        }
        match self.3.cmp_key(&other.3) {
            Ordering::Equal => {},
            c => {
                return c;
            },
        }
        match self.4.cmp_key(&other.4) {
            Ordering::Equal => {},
            c => {
                return c;
            },
        }
        match self.5.cmp_key(&other.5) {
            Ordering::Equal => {},
            c => {
                return c;
            },
        }
        match self.6.cmp_key(&other.6) {
            Ordering::Equal => {},
            c => {
                return c;
            },
        }
        match self.7.cmp_key(&other.7) {
            Ordering::Equal => {},
            c => {
                return c;
            },
        }
        match self.8.cmp_key(&other.8) {
            Ordering::Equal => {},
            c => {
                return c;
            },
        }
        match self.9.cmp_key(&other.9) {
            Ordering::Equal => {},
            c => {
                return c;
            },
        }
        self.10.cmp_key(&other.10)
    }

    fn spare(&self) -> (r: u32) {
        0
    }

    fn from_radix(radix: u64, spare: u32) -> (r: Option<Self>) {
        None
    }
}

impl<A: Key, B: Key, C: Key, D: Key, E: Key, F: Key, G: Key, H: Key, I: Key, J: Key, K: Key, L: Key> Key for (A, B, C, D, E, F, G, H, I, J, K, L) {
    type Slots<'a> = SlotPair<A::Slots<'a>, SlotPair<B::Slots<'a>, SlotPair<C::Slots<'a>, SlotPair<D::Slots<'a>, SlotPair<E::Slots<'a>, SlotPair<F::Slots<'a>, SlotPair<G::Slots<'a>, SlotPair<H::Slots<'a>, SlotPair<I::Slots<'a>, SlotPair<J::Slots<'a>, SlotPair<K::Slots<'a>, L::Slots<'a>>>>>>>>>>>>;

    open spec fn parts() -> Seq<Part> {
        A::parts() + (B::parts() + (C::parts() + (D::parts() + (E::parts() + (F::parts() + (G::parts() + (H::parts() + (I::parts() + (J::parts() + (K::parts() + L::parts()))))))))))
    }

    open spec fn leaves(&self) -> Seq<LeafModel> {
        self.0.leaves() + (self.1.leaves() + (self.2.leaves() + (self.3.leaves() + (self.4.leaves() + (self.5.leaves() + (self.6.leaves() + (self.7.leaves() + (self.8.leaves() + (self.9.leaves() + (self.10.leaves() + self.11.leaves()))))))))))
    }

    proof fn leaves_shaped(&self) {
        self.0.leaves_shaped();
        self.1.leaves_shaped();
        self.2.leaves_shaped();
        self.3.leaves_shaped();
        self.4.leaves_shaped();
        self.5.leaves_shaped();
        self.6.leaves_shaped();
        self.7.leaves_shaped();
        self.8.leaves_shaped();
        self.9.leaves_shaped();
        self.10.leaves_shaped();
        self.11.leaves_shaped();
        lemma_shaped_add(self.10.leaves(), K::parts(), self.11.leaves(), L::parts());
        lemma_shaped_add(self.9.leaves(), J::parts(), self.10.leaves() + self.11.leaves(), K::parts() + L::parts());
        lemma_shaped_add(self.8.leaves(), I::parts(), self.9.leaves() + (self.10.leaves() + self.11.leaves()), J::parts() + (K::parts() + L::parts()));
        lemma_shaped_add(self.7.leaves(), H::parts(), self.8.leaves() + (self.9.leaves() + (self.10.leaves() + self.11.leaves())), I::parts() + (J::parts() + (K::parts() + L::parts())));
        lemma_shaped_add(self.6.leaves(), G::parts(), self.7.leaves() + (self.8.leaves() + (self.9.leaves() + (self.10.leaves() + self.11.leaves()))), H::parts() + (I::parts() + (J::parts() + (K::parts() + L::parts()))));
        lemma_shaped_add(self.5.leaves(), F::parts(), self.6.leaves() + (self.7.leaves() + (self.8.leaves() + (self.9.leaves() + (self.10.leaves() + self.11.leaves())))), G::parts() + (H::parts() + (I::parts() + (J::parts() + (K::parts() + L::parts())))));
        lemma_shaped_add(self.4.leaves(), E::parts(), self.5.leaves() + (self.6.leaves() + (self.7.leaves() + (self.8.leaves() + (self.9.leaves() + (self.10.leaves() + self.11.leaves()))))), F::parts() + (G::parts() + (H::parts() + (I::parts() + (J::parts() + (K::parts() + L::parts()))))));
        lemma_shaped_add(self.3.leaves(), D::parts(), self.4.leaves() + (self.5.leaves() + (self.6.leaves() + (self.7.leaves() + (self.8.leaves() + (self.9.leaves() + (self.10.leaves() + self.11.leaves())))))), E::parts() + (F::parts() + (G::parts() + (H::parts() + (I::parts() + (J::parts() + (K::parts() + L::parts())))))));
        lemma_shaped_add(self.2.leaves(), C::parts(), self.3.leaves() + (self.4.leaves() + (self.5.leaves() + (self.6.leaves() + (self.7.leaves() + (self.8.leaves() + (self.9.leaves() + (self.10.leaves() + self.11.leaves()))))))), D::parts() + (E::parts() + (F::parts() + (G::parts() + (H::parts() + (I::parts() + (J::parts() + (K::parts() + L::parts()))))))));
        lemma_shaped_add(self.1.leaves(), B::parts(), self.2.leaves() + (self.3.leaves() + (self.4.leaves() + (self.5.leaves() + (self.6.leaves() + (self.7.leaves() + (self.8.leaves() + (self.9.leaves() + (self.10.leaves() + self.11.leaves())))))))), C::parts() + (D::parts() + (E::parts() + (F::parts() + (G::parts() + (H::parts() + (I::parts() + (J::parts() + (K::parts() + L::parts())))))))));
        lemma_shaped_add(self.0.leaves(), A::parts(), self.1.leaves() + (self.2.leaves() + (self.3.leaves() + (self.4.leaves() + (self.5.leaves() + (self.6.leaves() + (self.7.leaves() + (self.8.leaves() + (self.9.leaves() + (self.10.leaves() + self.11.leaves()))))))))), B::parts() + (C::parts() + (D::parts() + (E::parts() + (F::parts() + (G::parts() + (H::parts() + (I::parts() + (J::parts() + (K::parts() + L::parts()))))))))));
    }

    proof fn slots_shaped<'a>() {
        A::slots_shaped();
        B::slots_shaped();
        C::slots_shaped();
        D::slots_shaped();
        E::slots_shaped();
        F::slots_shaped();
        G::slots_shaped();
        H::slots_shaped();
        I::slots_shaped();
        J::slots_shaped();
        K::slots_shaped();
        L::slots_shaped();
        lemma_kinds_add(K::parts(), L::parts());
        lemma_pair_kinds::<K::Slots<'a>, L::Slots<'a>>();
        lemma_kinds_add(J::parts(), K::parts() + L::parts());
        lemma_pair_kinds::<J::Slots<'a>, SlotPair<K::Slots<'a>, L::Slots<'a>>>();
        lemma_kinds_add(I::parts(), J::parts() + (K::parts() + L::parts()));
        lemma_pair_kinds::<I::Slots<'a>, SlotPair<J::Slots<'a>, SlotPair<K::Slots<'a>, L::Slots<'a>>>>();
        lemma_kinds_add(H::parts(), I::parts() + (J::parts() + (K::parts() + L::parts())));
        lemma_pair_kinds::<H::Slots<'a>, SlotPair<I::Slots<'a>, SlotPair<J::Slots<'a>, SlotPair<K::Slots<'a>, L::Slots<'a>>>>>();
        lemma_kinds_add(G::parts(), H::parts() + (I::parts() + (J::parts() + (K::parts() + L::parts()))));
        lemma_pair_kinds::<G::Slots<'a>, SlotPair<H::Slots<'a>, SlotPair<I::Slots<'a>, SlotPair<J::Slots<'a>, SlotPair<K::Slots<'a>, L::Slots<'a>>>>>>();
        lemma_kinds_add(F::parts(), G::parts() + (H::parts() + (I::parts() + (J::parts() + (K::parts() + L::parts())))));
        lemma_pair_kinds::<F::Slots<'a>, SlotPair<G::Slots<'a>, SlotPair<H::Slots<'a>, SlotPair<I::Slots<'a>, SlotPair<J::Slots<'a>, SlotPair<K::Slots<'a>, L::Slots<'a>>>>>>>();
        lemma_kinds_add(E::parts(), F::parts() + (G::parts() + (H::parts() + (I::parts() + (J::parts() + (K::parts() + L::parts()))))));
        lemma_pair_kinds::<E::Slots<'a>, SlotPair<F::Slots<'a>, SlotPair<G::Slots<'a>, SlotPair<H::Slots<'a>, SlotPair<I::Slots<'a>, SlotPair<J::Slots<'a>, SlotPair<K::Slots<'a>, L::Slots<'a>>>>>>>>();
        lemma_kinds_add(D::parts(), E::parts() + (F::parts() + (G::parts() + (H::parts() + (I::parts() + (J::parts() + (K::parts() + L::parts())))))));
        lemma_pair_kinds::<D::Slots<'a>, SlotPair<E::Slots<'a>, SlotPair<F::Slots<'a>, SlotPair<G::Slots<'a>, SlotPair<H::Slots<'a>, SlotPair<I::Slots<'a>, SlotPair<J::Slots<'a>, SlotPair<K::Slots<'a>, L::Slots<'a>>>>>>>>>();
        lemma_kinds_add(C::parts(), D::parts() + (E::parts() + (F::parts() + (G::parts() + (H::parts() + (I::parts() + (J::parts() + (K::parts() + L::parts()))))))));
        lemma_pair_kinds::<C::Slots<'a>, SlotPair<D::Slots<'a>, SlotPair<E::Slots<'a>, SlotPair<F::Slots<'a>, SlotPair<G::Slots<'a>, SlotPair<H::Slots<'a>, SlotPair<I::Slots<'a>, SlotPair<J::Slots<'a>, SlotPair<K::Slots<'a>, L::Slots<'a>>>>>>>>>>();
        lemma_kinds_add(B::parts(), C::parts() + (D::parts() + (E::parts() + (F::parts() + (G::parts() + (H::parts() + (I::parts() + (J::parts() + (K::parts() + L::parts())))))))));
        lemma_pair_kinds::<B::Slots<'a>, SlotPair<C::Slots<'a>, SlotPair<D::Slots<'a>, SlotPair<E::Slots<'a>, SlotPair<F::Slots<'a>, SlotPair<G::Slots<'a>, SlotPair<H::Slots<'a>, SlotPair<I::Slots<'a>, SlotPair<J::Slots<'a>, SlotPair<K::Slots<'a>, L::Slots<'a>>>>>>>>>>>();
        lemma_kinds_add(A::parts(), B::parts() + (C::parts() + (D::parts() + (E::parts() + (F::parts() + (G::parts() + (H::parts() + (I::parts() + (J::parts() + (K::parts() + L::parts()))))))))));
        lemma_pair_kinds::<A::Slots<'a>, SlotPair<B::Slots<'a>, SlotPair<C::Slots<'a>, SlotPair<D::Slots<'a>, SlotPair<E::Slots<'a>, SlotPair<F::Slots<'a>, SlotPair<G::Slots<'a>, SlotPair<H::Slots<'a>, SlotPair<I::Slots<'a>, SlotPair<J::Slots<'a>, SlotPair<K::Slots<'a>, L::Slots<'a>>>>>>>>>>>>();
    }

    fn shape() -> (r: Shape) {
        let s = L::shape();
        let s = Shape::concat(&K::shape(), &s);
        let s = Shape::concat(&J::shape(), &s);
        let s = Shape::concat(&I::shape(), &s);
        let s = Shape::concat(&H::shape(), &s);
        let s = Shape::concat(&G::shape(), &s);
        let s = Shape::concat(&F::shape(), &s);
        let s = Shape::concat(&E::shape(), &s);
        let s = Shape::concat(&D::shape(), &s);
        let s = Shape::concat(&C::shape(), &s);
        let s = Shape::concat(&B::shape(), &s);
        Shape::concat(&A::shape(), &s)
    }

    fn leaf_count() -> (r: usize) {
        let n: usize = A::leaf_count() + <(B, C, D, E, F, G, H, I, J, K, L) as Key>::leaf_count();
        if n > MAX_PARTS {
            MAX_PARTS
        } else {
            n
        }
    }

    fn descending(p: usize) -> (r: bool) {
        let n: usize = A::leaf_count();
        if p < n {
            A::descending(p)
        } else {
            <(B, C, D, E, F, G, H, I, J, K, L) as Key>::descending(p - n)
        }
    }

    fn write_parts<'a, S: PartSink<'a>>(&'a self, flip: bool, sink: &mut S) {
        let ghost l0 = sink.log();
        self.0.write_parts(flip, sink);
        let ghost l1 = sink.log();
        self.1.write_parts(flip, sink);
        let ghost l2 = sink.log();
        self.2.write_parts(flip, sink);
        let ghost l3 = sink.log();
        self.3.write_parts(flip, sink);
        let ghost l4 = sink.log();
        self.4.write_parts(flip, sink);
        let ghost l5 = sink.log();
        self.5.write_parts(flip, sink);
        let ghost l6 = sink.log();
        self.6.write_parts(flip, sink);
        let ghost l7 = sink.log();
        self.7.write_parts(flip, sink);
        let ghost l8 = sink.log();
        self.8.write_parts(flip, sink);
        let ghost l9 = sink.log();
        self.9.write_parts(flip, sink);
        let ghost l10 = sink.log();
        self.10.write_parts(flip, sink);
        let ghost l11 = sink.log();
        self.11.write_parts(flip, sink);
        proof {
            lemma_turned_add(self.10.leaves(), self.11.leaves(), flip);
            lemma_log_add(l10, turned(self.10.leaves(), flip), turned(self.11.leaves(), flip));
            lemma_turned_add(self.9.leaves(), self.10.leaves() + self.11.leaves(), flip);
            lemma_log_add(l9, turned(self.9.leaves(), flip), turned(self.10.leaves() + self.11.leaves(), flip));
            lemma_turned_add(self.8.leaves(), self.9.leaves() + (self.10.leaves() + self.11.leaves()), flip);
            lemma_log_add(l8, turned(self.8.leaves(), flip), turned(self.9.leaves() + (self.10.leaves() + self.11.leaves()), flip));
            lemma_turned_add(self.7.leaves(), self.8.leaves() + (self.9.leaves() + (self.10.leaves() + self.11.leaves())), flip);
            lemma_log_add(l7, turned(self.7.leaves(), flip), turned(self.8.leaves() + (self.9.leaves() + (self.10.leaves() + self.11.leaves())), flip));
            lemma_turned_add(self.6.leaves(), self.7.leaves() + (self.8.leaves() + (self.9.leaves() + (self.10.leaves() + self.11.leaves()))), flip);
            lemma_log_add(l6, turned(self.6.leaves(), flip), turned(self.7.leaves() + (self.8.leaves() + (self.9.leaves() + (self.10.leaves() + self.11.leaves()))), flip));
            lemma_turned_add(self.5.leaves(), self.6.leaves() + (self.7.leaves() + (self.8.leaves() + (self.9.leaves() + (self.10.leaves() + self.11.leaves())))), flip);
            lemma_log_add(l5, turned(self.5.leaves(), flip), turned(self.6.leaves() + (self.7.leaves() + (self.8.leaves() + (self.9.leaves() + (self.10.leaves() + self.11.leaves())))), flip));
            lemma_turned_add(self.4.leaves(), self.5.leaves() + (self.6.leaves() + (self.7.leaves() + (self.8.leaves() + (self.9.leaves() + (self.10.leaves() + self.11.leaves()))))), flip);
            lemma_log_add(l4, turned(self.4.leaves(), flip), turned(self.5.leaves() + (self.6.leaves() + (self.7.leaves() + (self.8.leaves() + (self.9.leaves() + (self.10.leaves() + self.11.leaves()))))), flip));
            lemma_turned_add(self.3.leaves(), self.4.leaves() + (self.5.leaves() + (self.6.leaves() + (self.7.leaves() + (self.8.leaves() + (self.9.leaves() + (self.10.leaves() + self.11.leaves())))))), flip);
            lemma_log_add(l3, turned(self.3.leaves(), flip), turned(self.4.leaves() + (self.5.leaves() + (self.6.leaves() + (self.7.leaves() + (self.8.leaves() + (self.9.leaves() + (self.10.leaves() + self.11.leaves())))))), flip));
            lemma_turned_add(self.2.leaves(), self.3.leaves() + (self.4.leaves() + (self.5.leaves() + (self.6.leaves() + (self.7.leaves() + (self.8.leaves() + (self.9.leaves() + (self.10.leaves() + self.11.leaves()))))))), flip);
            lemma_log_add(l2, turned(self.2.leaves(), flip), turned(self.3.leaves() + (self.4.leaves() + (self.5.leaves() + (self.6.leaves() + (self.7.leaves() + (self.8.leaves() + (self.9.leaves() + (self.10.leaves() + self.11.leaves()))))))), flip));
            lemma_turned_add(self.1.leaves(), self.2.leaves() + (self.3.leaves() + (self.4.leaves() + (self.5.leaves() + (self.6.leaves() + (self.7.leaves() + (self.8.leaves() + (self.9.leaves() + (self.10.leaves() + self.11.leaves())))))))), flip);
            lemma_log_add(l1, turned(self.1.leaves(), flip), turned(self.2.leaves() + (self.3.leaves() + (self.4.leaves() + (self.5.leaves() + (self.6.leaves() + (self.7.leaves() + (self.8.leaves() + (self.9.leaves() + (self.10.leaves() + self.11.leaves())))))))), flip));
            lemma_turned_add(self.0.leaves(), self.1.leaves() + (self.2.leaves() + (self.3.leaves() + (self.4.leaves() + (self.5.leaves() + (self.6.leaves() + (self.7.leaves() + (self.8.leaves() + (self.9.leaves() + (self.10.leaves() + self.11.leaves()))))))))), flip);
            lemma_log_add(l0, turned(self.0.leaves(), flip), turned(self.1.leaves() + (self.2.leaves() + (self.3.leaves() + (self.4.leaves() + (self.5.leaves() + (self.6.leaves() + (self.7.leaves() + (self.8.leaves() + (self.9.leaves() + (self.10.leaves() + self.11.leaves()))))))))), flip));
        }
    }

    fn cmp_key(&self, other: &Self) -> (r: Ordering) {
        proof {
            self.0.leaves_shaped();
            other.0.leaves_shaped();
            lemma_pair_ordering(self.0.leaves(), self.1.leaves() + (self.2.leaves() + (self.3.leaves() + (self.4.leaves() + (self.5.leaves() + (self.6.leaves() + (self.7.leaves() + (self.8.leaves() + (self.9.leaves() + (self.10.leaves() + self.11.leaves()))))))))), other.0.leaves(), other.1.leaves() + (other.2.leaves() + (other.3.leaves() + (other.4.leaves() + (other.5.leaves() + (other.6.leaves() + (other.7.leaves() + (other.8.leaves() + (other.9.leaves() + (other.10.leaves() + other.11.leaves()))))))))));
            self.1.leaves_shaped();
            other.1.leaves_shaped();
            lemma_pair_ordering(self.1.leaves(), self.2.leaves() + (self.3.leaves() + (self.4.leaves() + (self.5.leaves() + (self.6.leaves() + (self.7.leaves() + (self.8.leaves() + (self.9.leaves() + (self.10.leaves() + self.11.leaves())))))))), other.1.leaves(), other.2.leaves() + (other.3.leaves() + (other.4.leaves() + (other.5.leaves() + (other.6.leaves() + (other.7.leaves() + (other.8.leaves() + (other.9.leaves() + (other.10.leaves() + other.11.leaves())))))))));
            self.2.leaves_shaped();
            other.2.leaves_shaped();
            lemma_pair_ordering(self.2.leaves(), self.3.leaves() + (self.4.leaves() + (self.5.leaves() + (self.6.leaves() + (self.7.leaves() + (self.8.leaves() + (self.9.leaves() + (self.10.leaves() + self.11.leaves()))))))), other.2.leaves(), other.3.leaves() + (other.4.leaves() + (other.5.leaves() + (other.6.leaves() + (other.7.leaves() + (other.8.leaves() + (other.9.leaves() + (other.10.leaves() + other.11.leaves()))))))));
            self.3.leaves_shaped();
            other.3.leaves_shaped();
            lemma_pair_ordering(self.3.leaves(), self.4.leaves() + (self.5.leaves() + (self.6.leaves() + (self.7.leaves() + (self.8.leaves() + (self.9.leaves() + (self.10.leaves() + self.11.leaves())))))), other.3.leaves(), other.4.leaves() + (other.5.leaves() + (other.6.leaves() + (other.7.leaves() + (other.8.leaves() + (other.9.leaves() + (other.10.leaves() + other.11.leaves())))))));
            self.4.leaves_shaped();
            other.4.leaves_shaped();
            lemma_pair_ordering(self.4.leaves(), self.5.leaves() + (self.6.leaves() + (self.7.leaves() + (self.8.leaves() + (self.9.leaves() + (self.10.leaves() + self.11.leaves()))))), other.4.leaves(), other.5.leaves() + (other.6.leaves() + (other.7.leaves() + (other.8.leaves() + (other.9.leaves() + (other.10.leaves() + other.11.leaves()))))));
            self.5.leaves_shaped();
            other.5.leaves_shaped();
            lemma_pair_ordering(self.5.leaves(), self.6.leaves() + (self.7.leaves() + (self.8.leaves() + (self.9.leaves() + (self.10.leaves() + self.11.leaves())))), other.5.leaves(), other.6.leaves() + (other.7.leaves() + (other.8.leaves() + (other.9.leaves() + (other.10.leaves() + other.11.leaves())))));
            self.6.leaves_shaped();
            other.6.leaves_shaped();
            lemma_pair_ordering(self.6.leaves(), self.7.leaves() + (self.8.leaves() + (self.9.leaves() + (self.10.leaves() + self.11.leaves()))), other.6.leaves(), other.7.leaves() + (other.8.leaves() + (other.9.leaves() + (other.10.leaves() + other.11.leaves()))));
            self.7.leaves_shaped();
            other.7.leaves_shaped();
            lemma_pair_ordering(self.7.leaves(), self.8.leaves() + (self.9.leaves() + (self.10.leaves() + self.11.leaves())), other.7.leaves(), other.8.leaves() + (other.9.leaves() + (other.10.leaves() + other.11.leaves())));
            self.8.leaves_shaped();
            other.8.leaves_shaped();
            lemma_pair_ordering(self.8.leaves(), self.9.leaves() + (self.10.leaves() + self.11.leaves()), other.8.leaves(), other.9.leaves() + (other.10.leaves() + other.11.leaves()));
            self.9.leaves_shaped();
            other.9.leaves_shaped();
            lemma_pair_ordering(self.9.leaves(), self.10.leaves() + self.11.leaves(), other.9.leaves(), other.10.leaves() + other.11.leaves());
            self.10.leaves_shaped();
            other.10.leaves_shaped();
            lemma_pair_ordering(self.10.leaves(), self.11.leaves(), other.10.leaves(), other.11.leaves());
        }
        match self.0.cmp_key(&other.0) {
            Ordering::Equal => {},
            c => {
                return c;
            },
        }
        match self.1.cmp_key(&other.1) {
            Ordering::Equal => {},
            c => {
                return c;
            },
        }
        match self.2.cmp_key(&other.2) {
            Ordering::Equal => {},
            c => {
                return c;
            },
        }
        match self.3.cmp_key(&other.3) {
            Ordering::Equal => {},
            c => {
                return c;
            },
        }
        match self.4.cmp_key(&other.4) {
            Ordering::Equal => {},
            c => {
                return c;
            },
        }
        match self.5.cmp_key(&other.5) {
            Ordering::Equal => {},
            c => {
                return c;
            },
        }
        match self.6.cmp_key(&other.6) {
            Ordering::Equal => {},
            c => {
                return c;
            },
        }
        match self.7.cmp_key(&other.7) {
            Ordering::Equal => {},
            c => {
                return c;
            },
        }
        match self.8.cmp_key(&other.8) {
            Ordering::Equal => {},
            c => {
                return c;
            },
        }
        match self.9.cmp_key(&other.9) {
            Ordering::Equal => {},
            c => {
                return c;
            },
        }
        match self.10.cmp_key(&other.10) {
            Ordering::Equal => {},
            c => {
                return c;
            },
        }
        self.11.cmp_key(&other.11)
    }

    fn spare(&self) -> (r: u32) {
        0
    }

    fn from_radix(radix: u64, spare: u32) -> (r: Option<Self>) {
        None
    }
}

} // verus!
