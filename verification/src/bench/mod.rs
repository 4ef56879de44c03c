//! The measurements: the inputs, the counters that a sort is watched with, and
//! the rows and tables of the results.
use crate::bench::datasets::ElementType;
use crate::bench::render::{decimal_of, push_decimal};
use crate::compare::{std_sort_by, Compare};
use crate::key::number::{f64_magnitude, f64_radix};
use crate::less::Natural;
use crate::order::stable_sort_of;
use crate::record::{Rec32, Rec64};
use crate::record::string::StrRec;
use crate::view::{elem_le, Elem};
use vstd::prelude::*;

pub mod check;
pub mod counted;
pub mod counts;
pub mod csv;
pub mod dataset_laws;
pub mod datasets;
pub mod laws;
pub mod machine;
pub mod opponents;
pub mod render;
pub mod report_laws;
pub mod timing;
pub mod trace;
pub mod traffic_laws;
pub mod watch;
pub mod watch_laws;

verus! {

// ---- elements ------------------------------------------------------------------------------------

/// 8 bytes: a 32-bit key.
#[derive(Clone, Copy, Debug, PartialEq, Eq, Structural)]
pub struct Item {
    pub key: i32,
    pub id: u32,
}

/// 16 bytes: a floating point key, by its bits.
#[derive(Clone, Copy, Debug, PartialEq, Eq, Structural)]
pub struct DblItem {
    pub bits: u64,
    pub id: u32,
    pub pad: u32,
}

/// 16 bytes: a 64-bit key.
#[derive(Clone, Copy, Debug, PartialEq, Eq, Structural)]
pub struct I64Item {
    pub key: i64,
    pub id: u32,
    pub pad: u32,
}

/// A string key.
#[derive(Clone, Copy, Debug)]
pub struct StrItem<'a> {
    pub text: &'a [u8],
    pub id: u32,
}

impl Item {
    /// The element as a record.
    pub open spec fn model(self) -> Rec32 {
        Rec32 { key: self.key, idx: self.id }
    }

    fn record(self) -> (r: Rec32)
        ensures
            r == self.model(),
    {
        Rec32 { key: self.key, idx: self.id }
    }
}

impl Elem for Item {
    type Key = u32;

    open spec fn chunks(&self) -> Seq<u64> {
        self.model().chunks()
    }

    proof fn chunks_fit(&self) {
        self.model().chunks_fit();
    }

    proof fn chunks_end_together(a: Self, b: Self, c: int) {
        Rec32::chunks_end_together(a.model(), b.model(), c);
    }

    open spec fn has_chunks() -> bool {
        false
    }

    fn chunked() -> (r: bool) {
        false
    }

    fn less(a: Self, b: Self) -> (r: bool) {
        Rec32::less(a.record(), b.record())
    }

    fn compare(a: Self, b: Self) -> (r: i32) {
        Rec32::compare(a.record(), b.record())
    }

    fn compare_from(a: Self, b: Self, chunk: u64) -> (r: i32) {
        Rec32::compare_from(a.record(), b.record(), chunk)
    }

    fn radix_key(a: Self, chunk: u64) -> (r: u32) {
        Rec32::radix_key(a.record(), chunk)
    }

    fn chunk_ends(a: Self, chunk: u64) -> (r: bool) {
        Rec32::chunk_ends(a.record(), chunk)
    }

    open spec fn key_load(&self, chunk: int) -> int {
        0
    }

    open spec fn compare_load(&self, other: &Self, chunk: int) -> int {
        0
    }

    fn key_bytes(a: Self, chunk: u64) -> (r: u64) {
        0
    }

    fn compare_bytes(a: Self, b: Self, chunk: u64) -> (r: u64) {
        0
    }
}

impl DblItem {
    /// The element as a record.
    pub open spec fn model(self) -> Rec64 {
        Rec64 { key: f64_magnitude(self.bits) as i64, idx: self.id, pad: 0 }
    }

    fn record(self) -> (r: Rec64)
        ensures
            r == self.model(),
    {
        let k: i64 = (f64_radix(self.bits) as i128 - 0x8000_0000_0000_0000) as i64;
        Rec64 { key: k, idx: self.id, pad: 0 }
    }
}

impl Elem for DblItem {
    type Key = u64;

    open spec fn chunks(&self) -> Seq<u64> {
        self.model().chunks()
    }

    proof fn chunks_fit(&self) {
        self.model().chunks_fit();
    }

    proof fn chunks_end_together(a: Self, b: Self, c: int) {
        Rec64::chunks_end_together(a.model(), b.model(), c);
    }

    open spec fn has_chunks() -> bool {
        false
    }

    fn chunked() -> (r: bool) {
        false
    }

    fn less(a: Self, b: Self) -> (r: bool) {
        Rec64::less(a.record(), b.record())
    }

    fn compare(a: Self, b: Self) -> (r: i32) {
        Rec64::compare(a.record(), b.record())
    }

    fn compare_from(a: Self, b: Self, chunk: u64) -> (r: i32) {
        Rec64::compare_from(a.record(), b.record(), chunk)
    }

    fn radix_key(a: Self, chunk: u64) -> (r: u64) {
        Rec64::radix_key(a.record(), chunk)
    }

    fn chunk_ends(a: Self, chunk: u64) -> (r: bool) {
        Rec64::chunk_ends(a.record(), chunk)
    }

    open spec fn key_load(&self, chunk: int) -> int {
        0
    }

    open spec fn compare_load(&self, other: &Self, chunk: int) -> int {
        0
    }

    fn key_bytes(a: Self, chunk: u64) -> (r: u64) {
        0
    }

    fn compare_bytes(a: Self, b: Self, chunk: u64) -> (r: u64) {
        0
    }
}

impl I64Item {
    /// The element as a record.
    pub open spec fn model(self) -> Rec64 {
        Rec64 { key: self.key, idx: self.id, pad: 0 }
    }

    fn record(self) -> (r: Rec64)
        ensures
            r == self.model(),
    {
        Rec64 { key: self.key, idx: self.id, pad: 0 }
    }
}

impl Elem for I64Item {
    type Key = u64;

    open spec fn chunks(&self) -> Seq<u64> {
        self.model().chunks()
    }

    proof fn chunks_fit(&self) {
        self.model().chunks_fit();
    }

    proof fn chunks_end_together(a: Self, b: Self, c: int) {
        Rec64::chunks_end_together(a.model(), b.model(), c);
    }

    open spec fn has_chunks() -> bool {
        false
    }

    fn chunked() -> (r: bool) {
        false
    }

    fn less(a: Self, b: Self) -> (r: bool) {
        Rec64::less(a.record(), b.record())
    }

    fn compare(a: Self, b: Self) -> (r: i32) {
        Rec64::compare(a.record(), b.record())
    }

    fn compare_from(a: Self, b: Self, chunk: u64) -> (r: i32) {
        Rec64::compare_from(a.record(), b.record(), chunk)
    }

    fn radix_key(a: Self, chunk: u64) -> (r: u64) {
        Rec64::radix_key(a.record(), chunk)
    }

    fn chunk_ends(a: Self, chunk: u64) -> (r: bool) {
        Rec64::chunk_ends(a.record(), chunk)
    }

    open spec fn key_load(&self, chunk: int) -> int {
        0
    }

    open spec fn compare_load(&self, other: &Self, chunk: int) -> int {
        0
    }

    fn key_bytes(a: Self, chunk: u64) -> (r: u64) {
        0
    }

    fn compare_bytes(a: Self, b: Self, chunk: u64) -> (r: u64) {
        0
    }
}

impl<'a> StrItem<'a> {
    /// The element as a record.
    pub open spec fn model(self) -> StrRec<'a, false> {
        StrRec { bytes: self.text, idx: self.id }
    }

    fn record(self) -> (r: StrRec<'a, false>)
        ensures
            r == self.model(),
    {
        StrRec { bytes: self.text, idx: self.id }
    }
}

impl<'a> Elem for StrItem<'a> {
    type Key = u64;

    open spec fn chunks(&self) -> Seq<u64> {
        self.model().chunks()
    }

    proof fn chunks_fit(&self) {
        self.model().chunks_fit();
    }

    proof fn chunks_end_together(a: Self, b: Self, c: int) {
        StrRec::<'a, false>::chunks_end_together(a.model(), b.model(), c);
    }

    open spec fn has_chunks() -> bool {
        true
    }

    fn chunked() -> (r: bool) {
        true
    }

    fn less(a: Self, b: Self) -> (r: bool) {
        StrRec::<'a, false>::less(a.record(), b.record())
    }

    fn compare(a: Self, b: Self) -> (r: i32) {
        StrRec::<'a, false>::compare(a.record(), b.record())
    }

    fn compare_from(a: Self, b: Self, chunk: u64) -> (r: i32) {
        StrRec::<'a, false>::compare_from(a.record(), b.record(), chunk)
    }

    fn radix_key(a: Self, chunk: u64) -> (r: u64) {
        StrRec::<'a, false>::radix_key(a.record(), chunk)
    }

    fn chunk_ends(a: Self, chunk: u64) -> (r: bool) {
        StrRec::<'a, false>::chunk_ends(a.record(), chunk)
    }

    open spec fn key_load(&self, chunk: int) -> int {
        self.model().key_load(chunk)
    }

    open spec fn compare_load(&self, other: &Self, chunk: int) -> int {
        self.model().compare_load(&other.model(), chunk)
    }

    fn key_bytes(a: Self, chunk: u64) -> (r: u64) {
        StrRec::<'a, false>::key_bytes(a.record(), chunk)
    }

    fn compare_bytes(a: Self, b: Self, chunk: u64) -> (r: u64) {
        StrRec::<'a, false>::compare_bytes(a.record(), b.record(), chunk)
    }

    fn key_place(a: Self, chunk: u64) -> (r: usize) {
        StrRec::<'a, false>::key_place(a.record(), chunk)
    }
}

/// What the measurements need of an element beyond its order.
pub trait Item2: Elem {
    /// The type of the element.
    spec fn kind() -> ElementType;

    /// Its number in the input.
    spec fn number(&self) -> u32;

    /// The two elements are the same.
    spec fn same_as(&self, other: &Self) -> bool;

    /// Same elements are tied and have the same number.
    proof fn same_tied(&self, other: &Self)
        requires
            self.same_as(other),
        ensures
            self.number() == other.number(),
            self.chunks() == other.chunks(),
    ;

    /// An element is the same as itself.
    proof fn same_reflexive(&self)
        ensures
            self.same_as(self),
    ;

    /// The type of the element.
    fn element_type() -> (r: ElementType)
        ensures
            r == Self::kind(),
    ;

    /// Its number in the input.
    fn id(&self) -> (r: u32)
        ensures
            r == self.number(),
    ;

    /// Whether two elements are the same.
    fn same(&self, other: &Self) -> (r: bool)
        ensures
            r == self.same_as(other),
    ;
}

impl Item2 for Item {
    open spec fn kind() -> ElementType {
        ElementType::Int32
    }

    open spec fn number(&self) -> u32 {
        self.id
    }

    open spec fn same_as(&self, other: &Self) -> bool {
        *self == *other
    }

    proof fn same_tied(&self, other: &Self) {
    }

    proof fn same_reflexive(&self) {
    }

    fn element_type() -> (r: ElementType) {
        ElementType::Int32
    }

    fn id(&self) -> (r: u32) {
        self.id
    }

    fn same(&self, other: &Self) -> (r: bool) {
        *self == *other
    }
}

impl Item2 for DblItem {
    open spec fn kind() -> ElementType {
        ElementType::Double
    }

    open spec fn number(&self) -> u32 {
        self.id
    }

    open spec fn same_as(&self, other: &Self) -> bool {
        *self == *other
    }

    proof fn same_tied(&self, other: &Self) {
    }

    proof fn same_reflexive(&self) {
    }

    fn element_type() -> (r: ElementType) {
        ElementType::Double
    }

    fn id(&self) -> (r: u32) {
        self.id
    }

    fn same(&self, other: &Self) -> (r: bool) {
        *self == *other
    }
}

impl Item2 for I64Item {
    open spec fn kind() -> ElementType {
        ElementType::Int64
    }

    open spec fn number(&self) -> u32 {
        self.id
    }

    open spec fn same_as(&self, other: &Self) -> bool {
        *self == *other
    }

    proof fn same_tied(&self, other: &Self) {
    }

    proof fn same_reflexive(&self) {
    }

    fn element_type() -> (r: ElementType) {
        ElementType::Int64
    }

    fn id(&self) -> (r: u32) {
        self.id
    }

    fn same(&self, other: &Self) -> (r: bool) {
        *self == *other
    }
}

impl<'a> Item2 for StrItem<'a> {
    open spec fn kind() -> ElementType {
        ElementType::Text
    }

    open spec fn number(&self) -> u32 {
        self.id
    }

    open spec fn same_as(&self, other: &Self) -> bool {
        self.id == other.id && self.text@ == other.text@
    }

    proof fn same_tied(&self, other: &Self) {
    }

    proof fn same_reflexive(&self) {
    }

    fn element_type() -> (r: ElementType) {
        ElementType::Text
    }

    fn id(&self) -> (r: u32) {
        self.id
    }

    fn same(&self, other: &Self) -> (r: bool) {
        if self.id != other.id || self.text.len() != other.text.len() {
            return false;
        }
        let n: usize = self.text.len();
        let mut i: usize = 0;
        while i < n
            invariant
                i <= n == self.text@.len() == other.text@.len(),
                forall|k: int| 0 <= k < i ==> self.text@[k] == other.text@[k],
            decreases n - i,
        {
            if self.text[i] != other.text[i] {
                return false;
            }
            i += 1;
        }
        assert(self.text@ =~= other.text@);
        true
    }
}

// ---- the result of a sort ------------------------------------------------------------------------

/// Where the hash of an order starts.
pub const FNV_OFFSET: u64 = 1469598103934665603;

/// What it is multiplied by.
pub const FNV_PRIME: u64 = 1099511628211;

/// The hash of the numbers of the first `n` elements.
pub open spec fn order_hash_to<T: Item2>(s: Seq<T>, n: int) -> u64
    decreases n,
{
    if n <= 0 {
        FNV_OFFSET
    } else {
        (order_hash_to(s, n - 1) ^ s[n - 1].number() as u64).wrapping_mul(FNV_PRIME)
    }
}

/// The hash of an order.
pub fn order_hash<T: Item2>(v: &[T]) -> (r: u64)
    ensures
        r == order_hash_to(v@, v@.len() as int),
{
    let n: usize = v.len();
    let mut h: u64 = FNV_OFFSET;
    let mut i: usize = 0;
    while i < n
        invariant
            i <= n == v@.len(),
            h == order_hash_to(v@, i as int),
        decreases n - i,
    {
        h = (h ^ v[i].id() as u64).wrapping_mul(FNV_PRIME);
        i += 1;
    }
    h
}

/// A copy of a slice.
pub fn copied<T: Copy>(v: &[T]) -> (r: Vec<T>)
    ensures
        r@ == v@,
{
    let n: usize = v.len();
    let mut r: Vec<T> = Vec::with_capacity(n);
    while r.len() < n
        invariant
            n == v@.len(),
            r@.len() <= n,
            r@ == v@.take(r@.len() as int),
        decreases n - r@.len(),
    {
        let x: T = v[r.len()];
        r.push(x);
        assert(r@ =~= v@.take(r@.len() as int));
    }
    assert(r@ =~= v@);
    r
}

/// A stable sort by key of the input: the reference output.
pub fn make_reference<T: Item2>(input: &[T]) -> (r: Vec<T>)
    ensures
        stable_sort_of(elem_le::<T>(), input@, r@),
{
    let mut r: Vec<T> = copied(input);
    proof {
        assert(Compare::<T>::follows(&Natural, elem_le::<T>()));
    }
    std_sort_by(&mut r, &Natural);
    r
}

/// What is wrong with the output of a sort.
#[derive(Clone, Copy, Debug, PartialEq, Eq, Structural)]
pub enum Fault {
    /// The number of elements changed.
    Size,
    /// The element at `index` is not the one that the stable sort puts there.
    Mismatch { index: usize, id: u32, expected: u32 },
    /// The element at `index` goes before the one before it.
    NotSorted { index: usize },
    /// The numbers are not those of the input.
    NotPermutation,
}

impl Fault {
    /// The fault in words.
    pub open spec fn text(self) -> Seq<char> {
        match self {
            Fault::Size => "size changed"@,
            Fault::Mismatch { index, id, expected } => "mismatch at index "@ + decimal_of(index as nat) + " (id "@ + decimal_of(id as nat) + " vs expected id "@ + decimal_of(
                expected as nat,
            ) + ") - not sorted or not stable"@,
            Fault::NotSorted { index } => "not sorted at index "@ + decimal_of(index as nat),
            Fault::NotPermutation => "not a permutation of the input"@,
        }
    }

    /// The fault in words.
    pub fn message(self) -> (r: String)
        ensures
            r@ == self.text(),
    {
        let mut s: String = String::new();
        match self {
            Fault::Size => {
                s.append("size changed");
                assert(s@ =~= self.text());
            },
            Fault::Mismatch { index, id, expected } => {
                s.append("mismatch at index ");
                push_decimal(&mut s, index as u64);
                s.append(" (id ");
                push_decimal(&mut s, id as u64);
                s.append(" vs expected id ");
                push_decimal(&mut s, expected as u64);
                s.append(") - not sorted or not stable");
                assert(s@ =~= self.text());
            },
            Fault::NotSorted { index } => {
                s.append("not sorted at index ");
                push_decimal(&mut s, index as u64);
                assert(s@ =~= self.text());
            },
            Fault::NotPermutation => {
                s.append("not a permutation of the input");
                assert(s@ =~= self.text());
            },
        }
        s
    }
}

/// What is wrong with `out`, held against the stable sort of the input.
pub open spec fn sort_fault<T: Item2>(out: Seq<T>, reference: Seq<T>) -> Option<Fault> {
    if out.len() != reference.len() {
        Some(Fault::Size)
    } else if exists|i: int| 0 <= i < out.len() && !(#[trigger] out[i]).same_as(&reference[i]) {
        let i = first_difference(out, reference, 0);
        Some(Fault::Mismatch { index: i as usize, id: out[i].number(), expected: reference[i].number() })
    } else {
        None
    }
}

/// The first place from `i` on where two sequences differ.
pub open spec fn first_difference<T: Item2>(a: Seq<T>, b: Seq<T>, i: int) -> int
    decreases a.len() - i,
{
    if i >= a.len() || !a[i].same_as(&b[i]) {
        i
    } else {
        first_difference(a, b, i + 1)
    }
}

/// Whether the output of a stable sort is that of the reference.
pub fn verify_sorted<T: Item2>(out: &[T], reference: &[T]) -> (r: Result<(), Fault>)
    ensures
        r == match sort_fault(out@, reference@) {
            Some(f) => Result::<(), Fault>::Err(f),
            None => Result::<(), Fault>::Ok(()),
        },
{
    let n: usize = out.len();
    if n != reference.len() {
        return Err(Fault::Size);
    }
    let mut i: usize = 0;
    while i < n
        invariant
            i <= n == out@.len() == reference@.len(),
            first_difference(out@, reference@, 0) == first_difference(out@, reference@, i as int),
            forall|k: int| 0 <= k < i ==> (#[trigger] out@[k]).same_as(&reference@[k]),
        decreases n - i,
    {
        if !out[i].same(&reference[i]) {
            return Err(Fault::Mismatch { index: i, id: out[i].id(), expected: reference[i].id() });
        }
        i += 1;
    }
    Ok(())
}

} // verus!
