//! Key inference for the comparator sort.
//!
//! A comparator is a black box, but the elements are not. On a plain element
//! the sort guesses that the comparator is the order of some aligned window of
//! the element's bytes, read as an integer or a float, ascending or descending.
//! Every such window is tested against a strided sample of adjacent-pair
//! outcomes of the comparator; a window that agrees with all of them is sorted
//! by the record path, and the result is verified with one sequential comparator
//! pass. A class of the comparator that spans several window keys is put back
//! into the order of the input, which restores stability even when the window is
//! finer than the comparator. Only a comparator that disagrees in direction
//! somewhere fails the guess; the input is then still untouched and goes to the
//! comparison sort.
use crate::algorithm::scout::descent;
use crate::api::{
    apply_list, comparison_sort, list_by_key, small_sort, sort_known_shape, SMALL_SORT,
};
use crate::compare::{
    all_taken, ints, is_order, lists_sorted, ordered_by, sign_follows, std_sort_by, BySign,
    Compare,
};
use crate::compsort::lemma_no_drop;
use crate::key::{by_leaves, shaped, Key, LeafModel};
use crate::key::laws::fixed_in_order;
use crate::key::number::{
    f32_magnitude, f32_radix, f64_magnitude, f64_radix, one_fixed, F32Bits, F64Bits,
};
use crate::less::Less;
use crate::order::{
    by_key, iota, lemma_by_key_total, lemma_map_permutation, lemma_permutation_add,
    lemma_permutation_len, lemma_permutation_member, lemma_picked_sort, lemma_position_le_total,
    lemma_positions_distinct, permutation, picked, position_le, sorted, stable_sort_is_unique,
    stable_sort_of, tied, total_preorder,
};
use crate::project::computes;
use crate::record::{all_short, lemma_fixed_short, Rec32, Rec64};
use crate::shape::{width_sum, Part};
use crate::view::{free_array, space, Alloc, Hooks};
use vstd::prelude::*;

verus! {

/// Below this many elements no window is looked for.
pub const INFER_MIN: usize = 4096;

/// Adjacent pairs the comparator is asked about before a window is chosen.
pub const SAMPLE_PAIRS: usize = 2048;

// ---- plain elements ------------------------------------------------------------------------------

/// An element that is made of a fixed number of bytes, any window of which can
/// be read as an integer or a float. The bytes of a number stand least
/// significant first, those of a structure in the order of its fields.
pub trait PlainBytes: Copy {
    /// The number of bytes.
    spec fn width() -> nat;

    /// The bytes.
    spec fn bytes(&self) -> Seq<u8>;

    /// There are so many of them.
    proof fn bytes_width(&self)
        ensures
            self.bytes().len() == Self::width(),
    ;

    /// The number of bytes.
    fn size() -> (r: usize)
        ensures
            r == Self::width(),
    ;

    /// One of the bytes.
    fn byte(&self, i: usize) -> (r: u8)
        requires
            i < Self::width(),
        ensures
            r == self.bytes()[i as int],
    ;
}

impl PlainBytes for u8 {
    open spec fn width() -> nat {
        1
    }

    open spec fn bytes(&self) -> Seq<u8> {
        seq![*self]
    }

    proof fn bytes_width(&self) {
    }

    fn size() -> (r: usize) {
        1
    }

    fn byte(&self, i: usize) -> (r: u8) {
        *self
    }
}

impl PlainBytes for i8 {
    open spec fn width() -> nat {
        1
    }

    open spec fn bytes(&self) -> Seq<u8> {
        seq![*self as u8]
    }

    proof fn bytes_width(&self) {
    }

    fn size() -> (r: usize) {
        1
    }

    fn byte(&self, i: usize) -> (r: u8) {
        *self as u8
    }
}

impl PlainBytes for bool {
    open spec fn width() -> nat {
        1
    }

    open spec fn bytes(&self) -> Seq<u8> {
        seq![if *self { 1u8 } else { 0u8 }]
    }

    proof fn bytes_width(&self) {
    }

    fn size() -> (r: usize) {
        1
    }

    fn byte(&self, i: usize) -> (r: u8) {
        if *self {
            1
        } else {
            0
        }
    }
}

impl PlainBytes for u16 {
    open spec fn width() -> nat {
        2
    }

    open spec fn bytes(&self) -> Seq<u8> {
        Seq::new(2, |i: int| ((*self) >> (8 * i) as u16) as u8)
    }

    proof fn bytes_width(&self) {
    }

    fn size() -> (r: usize) {
        2
    }

    fn byte(&self, i: usize) -> (r: u8) {
        (((*self) >> (8 * i as u16)) as u8)
    }
}

impl PlainBytes for i16 {
    open spec fn width() -> nat {
        2
    }

    open spec fn bytes(&self) -> Seq<u8> {
        Seq::new(2, |i: int| ((*self as u16) >> (8 * i) as u16) as u8)
    }

    proof fn bytes_width(&self) {
    }

    fn size() -> (r: usize) {
        2
    }

    fn byte(&self, i: usize) -> (r: u8) {
        (((*self as u16) >> (8 * i as u16)) as u8)
    }
}

impl PlainBytes for u32 {
    open spec fn width() -> nat {
        4
    }

    open spec fn bytes(&self) -> Seq<u8> {
        Seq::new(4, |i: int| ((*self) >> (8 * i) as u32) as u8)
    }

    proof fn bytes_width(&self) {
    }

    fn size() -> (r: usize) {
        4
    }

    fn byte(&self, i: usize) -> (r: u8) {
        (((*self) >> (8 * i as u32)) as u8)
    }
}

impl PlainBytes for i32 {
    open spec fn width() -> nat {
        4
    }

    open spec fn bytes(&self) -> Seq<u8> {
        Seq::new(4, |i: int| ((*self as u32) >> (8 * i) as u32) as u8)
    }

    proof fn bytes_width(&self) {
    }

    fn size() -> (r: usize) {
        4
    }

    fn byte(&self, i: usize) -> (r: u8) {
        (((*self as u32) >> (8 * i as u32)) as u8)
    }
}

impl PlainBytes for char {
    open spec fn width() -> nat {
        4
    }

    open spec fn bytes(&self) -> Seq<u8> {
        Seq::new(4, |i: int| ((*self as u32) >> (8 * i) as u32) as u8)
    }

    proof fn bytes_width(&self) {
    }

    fn size() -> (r: usize) {
        4
    }

    fn byte(&self, i: usize) -> (r: u8) {
        (((*self as u32) >> (8 * i as u32)) as u8)
    }
}

impl PlainBytes for u64 {
    open spec fn width() -> nat {
        8
    }

    open spec fn bytes(&self) -> Seq<u8> {
        Seq::new(8, |i: int| ((*self) >> (8 * i) as u64) as u8)
    }

    proof fn bytes_width(&self) {
    }

    fn size() -> (r: usize) {
        8
    }

    fn byte(&self, i: usize) -> (r: u8) {
        (((*self) >> (8 * i as u64)) as u8)
    }
}

impl PlainBytes for i64 {
    open spec fn width() -> nat {
        8
    }

    open spec fn bytes(&self) -> Seq<u8> {
        Seq::new(8, |i: int| ((*self as u64) >> (8 * i) as u64) as u8)
    }

    proof fn bytes_width(&self) {
    }

    fn size() -> (r: usize) {
        8
    }

    fn byte(&self, i: usize) -> (r: u8) {
        (((*self as u64) >> (8 * i as u64)) as u8)
    }
}

impl PlainBytes for usize {
    open spec fn width() -> nat {
        8
    }

    open spec fn bytes(&self) -> Seq<u8> {
        Seq::new(8, |i: int| ((*self as u64) >> (8 * i) as u64) as u8)
    }

    proof fn bytes_width(&self) {
    }

    fn size() -> (r: usize) {
        8
    }

    fn byte(&self, i: usize) -> (r: u8) {
        (((*self as u64) >> (8 * i as u64)) as u8)
    }
}

impl PlainBytes for isize {
    open spec fn width() -> nat {
        8
    }

    open spec fn bytes(&self) -> Seq<u8> {
        Seq::new(8, |i: int| ((*self as i64 as u64) >> (8 * i) as u64) as u8)
    }

    proof fn bytes_width(&self) {
    }

    fn size() -> (r: usize) {
        8
    }

    fn byte(&self, i: usize) -> (r: u8) {
        (((*self as i64 as u64) >> (8 * i as u64)) as u8)
    }
}

impl PlainBytes for u128 {
    open spec fn width() -> nat {
        16
    }

    open spec fn bytes(&self) -> Seq<u8> {
        Seq::new(16, |i: int| ((*self) >> (8 * i) as u128) as u8)
    }

    proof fn bytes_width(&self) {
    }

    fn size() -> (r: usize) {
        16
    }

    fn byte(&self, i: usize) -> (r: u8) {
        (((*self) >> (8 * i as u128)) as u8)
    }
}

impl PlainBytes for i128 {
    open spec fn width() -> nat {
        16
    }

    open spec fn bytes(&self) -> Seq<u8> {
        Seq::new(16, |i: int| ((*self as u128) >> (8 * i) as u128) as u8)
    }

    proof fn bytes_width(&self) {
    }

    fn size() -> (r: usize) {
        16
    }

    fn byte(&self, i: usize) -> (r: u8) {
        (((*self as u128) >> (8 * i as u128)) as u8)
    }
}

impl PlainBytes for F32Bits {
    open spec fn width() -> nat {
        4
    }

    open spec fn bytes(&self) -> Seq<u8> {
        self.0.bytes()
    }

    proof fn bytes_width(&self) {
    }

    fn size() -> (r: usize) {
        4
    }

    fn byte(&self, i: usize) -> (r: u8) {
        self.0.byte(i)
    }
}

impl PlainBytes for F64Bits {
    open spec fn width() -> nat {
        8
    }

    open spec fn bytes(&self) -> Seq<u8> {
        self.0.bytes()
    }

    proof fn bytes_width(&self) {
    }

    fn size() -> (r: usize) {
        8
    }

    fn byte(&self, i: usize) -> (r: u8) {
        self.0.byte(i)
    }
}

/// The bytes of an array are those of its elements, one after the other. An
/// array whose bytes cannot be counted shows none.
impl<T: PlainBytes, const N: usize> PlainBytes for [T; N] {
    open spec fn width() -> nat {
        if T::width() * N <= usize::MAX {
            T::width() * N as nat
        } else {
            0
        }
    }

    open spec fn bytes(&self) -> Seq<u8> {
        Seq::new(Self::width(), |i: int| self@[i / (T::width() as int)].bytes()[i % (T::width() as int)])
    }

    proof fn bytes_width(&self) {
    }

    fn size() -> (r: usize) {
        match T::size().checked_mul(N) {
            Some(x) => x,
            None => 0,
        }
    }

    fn byte(&self, i: usize) -> (r: u8) {
        let w: usize = T::size();
        assert(w > 0 && i / w < N && i % w < w) by (nonlinear_arith)
            requires
                i < w * N,
        ;
        self[i / w].byte(i % w)
    }
}

// ---- windows -------------------------------------------------------------------------------------

/// How a window is read.
#[derive(Clone, Copy, PartialEq, Eq, Debug, Structural)]
pub enum Kind {
    I8,
    U8,
    I16,
    U16,
    I32,
    U32,
    F32,
    I64,
    U64,
    F64,
}

impl Kind {
    /// The bytes of the window.
    pub open spec fn bytes(self) -> int {
        match self {
            Kind::I8 | Kind::U8 => 1,
            Kind::I16 | Kind::U16 => 2,
            Kind::I32 | Kind::U32 | Kind::F32 => 4,
            Kind::I64 | Kind::U64 | Kind::F64 => 8,
        }
    }

    /// The place among the kinds, in the order in which they are tried.
    pub open spec fn place(self) -> int {
        match self {
            Kind::I64 => 0,
            Kind::U64 => 1,
            Kind::F64 => 2,
            Kind::I32 => 3,
            Kind::U32 => 4,
            Kind::F32 => 5,
            Kind::I16 => 6,
            Kind::U16 => 7,
            Kind::I8 => 8,
            Kind::U8 => 9,
        }
    }

    /// The bytes of the window.
    pub fn size(self) -> (r: usize)
        ensures
            r == self.bytes(),
    {
        match self {
            Kind::I8 | Kind::U8 => 1,
            Kind::I16 | Kind::U16 => 2,
            Kind::I32 | Kind::U32 | Kind::F32 => 4,
            Kind::I64 | Kind::U64 | Kind::F64 => 8,
        }
    }

    /// The kind at a place.
    pub fn at(i: usize) -> (r: Kind)
        requires
            i < 10,
        ensures
            r.place() == i,
    {
        match i {
            0 => Kind::I64,
            1 => Kind::U64,
            2 => Kind::F64,
            3 => Kind::I32,
            4 => Kind::U32,
            5 => Kind::F32,
            6 => Kind::I16,
            7 => Kind::U16,
            8 => Kind::I8,
            _ => Kind::U8,
        }
    }

    /// Whether the window takes a 64-bit record.
    pub fn wide(self) -> (r: bool)
        ensures
            r == (self.bytes() == 8),
    {
        self.size() == 8
    }

    /// Whether the window is read as a float.
    pub fn is_float(self) -> (r: bool)
        ensures
            r == (self is F32 || self is F64),
    {
        matches!(self, Kind::F32 | Kind::F64)
    }

    /// Whether the window is read as a signed integer.
    pub fn is_signed(self) -> (r: bool)
        ensures
            r == (self is I8 || self is I16 || self is I32 || self is I64),
    {
        matches!(self, Kind::I8 | Kind::I16 | Kind::I32 | Kind::I64)
    }
}

/// A candidate key: a window of the element read as `kind`, possibly descending.
#[derive(Clone, Copy, PartialEq, Eq, Debug, Structural)]
pub struct Cand {
    pub off: usize,
    pub kind: Kind,
    pub desc: bool,
}

/// The `n` bytes from `off` on as a number, least significant first.
pub open spec fn word_at(b: Seq<u8>, off: int, n: int) -> u64
    decreases n,
{
    if n <= 0 {
        0
    } else {
        (word_at(b, off + 1, n - 1) << 8) | b[off] as u64
    }
}

/// The number that a window stands for, from the smallest of its kind on.
pub open spec fn rank_of(kind: Kind, w: u64) -> int {
    match kind {
        Kind::I8 => (w as u8 as i8) + 0x8000_0000,
        Kind::U8 => w as u8 as int,
        Kind::I16 => (w as u16 as i16) + 0x8000_0000,
        Kind::U16 => w as u16 as int,
        Kind::I32 => (w as u32 as i32) + 0x8000_0000,
        Kind::U32 => w as u32 as int,
        Kind::F32 => f32_magnitude(w as u32) + 0x8000_0000,
        Kind::I64 => (w as i64) + 0x8000_0000_0000_0000,
        Kind::U64 => w as int,
        Kind::F64 => f64_magnitude(w) + 0x8000_0000_0000_0000,
    }
}

/// The radix value of a candidate on an element.
pub open spec fn cand_radix(c: Cand, b: Seq<u8>) -> int {
    let r = rank_of(c.kind, word_at(b, c.off as int, c.kind.bytes()));
    if !c.desc {
        r
    } else if c.kind.bytes() == 8 {
        0xFFFF_FFFF_FFFF_FFFF - r
    } else {
        0xFFFF_FFFF - r
    }
}

/// The order of the elements by a candidate.
pub open spec fn window_le<T: PlainBytes>(c: Cand) -> spec_fn(T, T) -> bool {
    by_key(|x: T| cand_radix(c, x.bytes()))
}

/// Radix values are words.
proof fn lemma_cand_range(c: Cand, b: Seq<u8>)
    ensures
        0 <= cand_radix(c, b) <= 0xFFFF_FFFF_FFFF_FFFF,
        c.kind.bytes() < 8 ==> cand_radix(c, b) <= 0xFFFF_FFFF,
{
}

/// The pattern of a denormal: integers read as floats are denormals, floats in
/// use never are.
pub open spec fn denormal(kind: Kind, w: u64) -> bool {
    if kind is F32 {
        (w as u32) & 0x7F80_0000u32 == 0 && (w as u32) & 0x007F_FFFFu32 != 0
    } else {
        w & 0x7FF0_0000_0000_0000u64 == 0 && w & 0x000F_FFFF_FFFF_FFFFu64 != 0
    }
}

/// The window is aligned and lies inside the element.
pub open spec fn cand_fits(c: Cand, size: int) -> bool {
    &&& c.off as int % c.kind.bytes() == 0
    &&& c.off + c.kind.bytes() <= size
}

/// Reads a window.
pub fn window<T: PlainBytes>(x: &T, off: usize, n: usize) -> (r: u64)
    requires
        off + n <= T::width(),
    ensures
        r == word_at(x.bytes(), off as int, n as int),
{
    let sz: usize = T::size();
    let mut i: usize = n;
    let mut acc: u64 = 0;
    proof {
        x.bytes_width();
    }
    while i > 0
        invariant
            i <= n,
            off + n <= sz == T::width(),
            acc == word_at(x.bytes(), off + i, n - i),
        decreases i,
    {
        i -= 1;
        acc = (acc << 8) | x.byte(off + i) as u64;
    }
    acc
}

impl Cand {
    /// The order-preserving radix value of the window of an element: 32 bits
    /// wide for the narrow kinds, 64 for the wide ones.
    pub fn radix<T: PlainBytes>(self, x: &T) -> (r: u64)
        requires
            cand_fits(self, T::width() as int),
        ensures
            r == cand_radix(self, x.bytes()),
            self.kind.bytes() < 8 ==> r <= 0xFFFF_FFFF,
    {
        let w: u64 = window(x, self.off, self.kind.size());
        let r: u64 = match self.kind {
            Kind::I8 => ((w as u8 as i8) as i64 + 0x8000_0000) as u64,
            Kind::U8 => w as u8 as u64,
            Kind::I16 => ((w as u16 as i16) as i64 + 0x8000_0000) as u64,
            Kind::U16 => w as u16 as u64,
            Kind::I32 => ((w as u32 as i32) as i64 + 0x8000_0000) as u64,
            Kind::U32 => w as u32 as u64,
            Kind::F32 => f32_radix(w as u32) as u64,
            Kind::I64 => ((w as i64) as i128 + 0x8000_0000_0000_0000) as u64,
            Kind::U64 => w,
            Kind::F64 => f64_radix(w),
        };
        if !self.desc {
            r
        } else if self.kind.wide() {
            0xFFFF_FFFF_FFFF_FFFF - r
        } else {
            0xFFFF_FFFF - r
        }
    }
}

// ---- the choice of a window ----------------------------------------------------------------------

/// How two numbers compare: -1, 0 or 1.
pub open spec fn sign_between(a: int, b: int) -> int {
    if a < b {
        -1
    } else if a > b {
        1
    } else {
        0
    }
}

/// The candidate agrees with the outcomes of the pairs `(k * stride,
/// k * stride + 1)`.
pub open spec fn agrees<T: PlainBytes>(c: Cand, v: Seq<T>, stride: int, outcomes: Seq<i32>) -> bool {
    forall|k: int|
        0 <= k < outcomes.len() ==> #[trigger] outcomes[k] == sign_between(cand_radix(c, v[k * stride].bytes()), cand_radix(c, v[k * stride + 1].bytes()))
}

/// No sampled value of a float window is a denormal.
pub open spec fn plausible<T: PlainBytes>(c: Cand, v: Seq<T>, stride: int) -> bool {
    forall|i: int| 0 <= i < v.len() && i % stride == 0 ==> !denormal(c.kind, word_at((#[trigger] v[i]).bytes(), c.off as int, c.kind.bytes()))
}

/// The widest window wins, then a plausible float, then signed, then unsigned.
pub open spec fn score<T: PlainBytes>(c: Cand, v: Seq<T>, stride: int) -> int {
    10 * c.kind.bytes() + if c.kind is F32 || c.kind is F64 {
        if plausible(c, v, stride) {
            3int
        } else {
            0
        }
    } else if c.kind is I8 || c.kind is I16 || c.kind is I32 || c.kind is I64 {
        2
    } else {
        1
    }
}

/// `a` is tried before `b`.
pub open spec fn earlier(a: Cand, b: Cand) -> bool {
    ||| a.kind.place() < b.kind.place()
    ||| a.kind.place() == b.kind.place() && (a.off < b.off || a.off == b.off && !a.desc && b.desc)
}

/// `c` is preferred to `d`.
pub open spec fn beats<T: PlainBytes>(c: Cand, d: Cand, v: Seq<T>, stride: int) -> bool {
    ||| score(c, v, stride) > score(d, v, stride)
    ||| score(c, v, stride) == score(d, v, stride) && (c == d || earlier(c, d))
}

/// `r` is the best of the candidates that agree with the outcomes and satisfy
/// `among`.
pub open spec fn best_of<T: PlainBytes>(r: Option<Cand>, v: Seq<T>, stride: int, outcomes: Seq<i32>, among: spec_fn(Cand) -> bool) -> bool {
    match r {
        Some(c) => cand_fits(c, T::width() as int) && agrees(c, v, stride, outcomes) && among(c) && forall|d: Cand|
            cand_fits(d, T::width() as int) && #[trigger] agrees(d, v, stride, outcomes) && among(d) ==> beats(c, d, v, stride),
        None => forall|d: Cand| cand_fits(d, T::width() as int) && #[trigger] agrees(d, v, stride, outcomes) ==> !among(d),
    }
}

fn agrees_with<T: PlainBytes>(c: Cand, v: &[T], stride: usize, outcomes: &Vec<i32>) -> (r: bool)
    requires
        cand_fits(c, T::width() as int),
        outcomes@.len() * stride < v@.len(),
        stride > 0,
    ensures
        r == agrees(c, v@, stride as int, outcomes@),
{
    let mut k: usize = 0;
    let m: usize = outcomes.len();
    let n: usize = v.len();
    while k < m
        invariant
            k <= m == outcomes@.len(),
            cand_fits(c, T::width() as int),
            n == v@.len(),
            m * stride < n,
            stride > 0,
            forall|h: int|
                0 <= h < k ==> #[trigger] outcomes@[h] == sign_between(cand_radix(c, v@[h * stride].bytes()), cand_radix(c, v@[h * stride + 1].bytes())),
        decreases m - k,
    {
        assert(k * stride + 1 <= m * stride) by (nonlinear_arith)
            requires
                k < m,
                stride > 0,
        ;
        let i: usize = k * stride;
        let a: u64 = c.radix(&v[i]);
        let b: u64 = c.radix(&v[i + 1]);
        let o: i32 = if a < b {
            -1
        } else if a > b {
            1
        } else {
            0
        };
        if o != outcomes[k] {
            return false;
        }
        k += 1;
    }
    true
}

/// Whether a float window is believed.
fn float_plausible<T: PlainBytes>(c: Cand, v: &[T], stride: usize) -> (r: bool)
    requires
        cand_fits(c, T::width() as int),
        stride > 0,
    ensures
        r == plausible(c, v@, stride as int),
{
    let n: usize = v.len();
    let mut i: usize = 0;
    while i < n
        invariant
            n == v@.len(),
            cand_fits(c, T::width() as int),
            stride > 0,
            i % stride == 0,
            i < n + stride,
            forall|h: int| 0 <= h < i && h < n && h % (stride as int) == 0 ==> !denormal(c.kind, word_at((#[trigger] v@[h]).bytes(), c.off as int, c.kind.bytes())),
        decreases n + stride - i,
    {
        let w: u64 = window(&v[i], c.off, c.kind.size());
        let small: bool = match c.kind {
            Kind::F32 => (w as u32) & 0x7F80_0000u32 == 0 && (w as u32) & 0x007F_FFFFu32 != 0,
            _ => w & 0x7FF0_0000_0000_0000u64 == 0 && w & 0x000F_FFFF_FFFF_FFFFu64 != 0,
        };
        if small {
            return false;
        }
        proof {
            lemma_next_multiple(i as int, stride as int);
        }
        if i >= n - 1 || stride > n - 1 - i {
            assert forall|h: int| 0 <= h < n && h % (stride as int) == 0 implies !denormal(c.kind, word_at((#[trigger] v@[h]).bytes(), c.off as int, c.kind.bytes())) by {
                assert(h <= i || h >= i + stride);
            }
            return true;
        }
        assert forall|h: int| 0 <= h < i + stride && h < n && h % (stride as int) == 0 implies !denormal(c.kind, word_at((#[trigger] v@[h]).bytes(), c.off as int, c.kind.bytes())) by {
            assert(h <= i || h >= i + stride);
        }
        i += stride;
    }
    true
}

/// Between a multiple and the next there is none.
proof fn lemma_next_multiple(i: int, d: int)
    requires
        0 <= i,
        d > 0,
        i % d == 0,
    ensures
        (i + d) % d == 0,
        forall|h: int| i < h < i + d ==> #[trigger] (h % d) != 0,
{
    vstd::arithmetic::div_mod::lemma_mod_add_multiples_vanish(i, d);
    assert forall|h: int| i < h < i + d implies #[trigger] (h % d) != 0 by {
        vstd::arithmetic::div_mod::lemma_fundamental_div_mod(i, d);
        vstd::arithmetic::mul::lemma_mul_is_commutative(d, i / d);
        vstd::arithmetic::div_mod::lemma_fundamental_div_mod_converse(h, d, i / d, h - i);
    }
}

/// Tries one candidate.
fn consider<T: PlainBytes>(best: Option<Cand>, c: Cand, v: &[T], stride: usize, outcomes: &Vec<i32>) -> (r: Option<Cand>)
    requires
        cand_fits(c, T::width() as int),
        outcomes@.len() * stride < v@.len(),
        stride > 0,
        best_of(best, v@, stride as int, outcomes@, |d: Cand| earlier(d, c)),
    ensures
        best_of(r, v@, stride as int, outcomes@, |d: Cand| d == c || earlier(d, c)),
        best is Some ==> r is Some,
{
    if !agrees_with(c, v, stride, outcomes) {
        return best;
    }
    let better: bool = match best {
        None => true,
        Some(b) => score_of(c, v, stride) > score_of(b, v, stride),
    };
    if better {
        Some(c)
    } else {
        best
    }
}

fn score_of<T: PlainBytes>(c: Cand, v: &[T], stride: usize) -> (r: usize)
    requires
        cand_fits(c, T::width() as int),
        stride > 0,
    ensures
        r == score(c, v@, stride as int),
{
    10 * c.kind.size() + if c.kind.is_float() {
        if float_plausible(c, v, stride) {
            3
        } else {
            0
        }
    } else if c.kind.is_signed() {
        2
    } else {
        1
    }
}

/// The window that agrees with every sampled outcome, if any; among several, the
/// widest, then a plausible float, then signed, then unsigned.
pub fn choose_window<T: PlainBytes>(v: &[T], stride: usize, outcomes: &Vec<i32>) -> (r: Option<Cand>)
    requires
        outcomes@.len() * stride < v@.len(),
        stride > 0,
    ensures
        best_of(r, v@, stride as int, outcomes@, |d: Cand| true),
{
    let sz: usize = T::size();
    let mut best: Option<Cand> = None;
    let mut k: usize = 0;
    while k < 10
        invariant
            k <= 10,
            sz == T::width(),
            outcomes@.len() * stride < v@.len(),
            stride > 0,
            best_of(best, v@, stride as int, outcomes@, |d: Cand| d.kind.place() < k),
        decreases 10 - k,
    {
        let kind: Kind = Kind::at(k);
        let ks: usize = kind.size();
        if let Some(b) = best {
            if ks < b.kind.size() {
                // a narrower window cannot win
                assert forall|d: Cand| cand_fits(d, T::width() as int) && #[trigger] agrees(d, v@, stride as int, outcomes@) implies beats(b, d, v@, stride as int) by {
                    if d.kind.place() >= k {
                        assert(d.kind.bytes() <= ks);
                    }
                }
                return best;
            }
        }
        let mut off: usize = 0;
        while off <= sz && ks <= sz - off
            invariant
                k < 10,
                kind.place() == k,
                ks == kind.bytes(),
                sz == T::width(),
                off as int % kind.bytes() == 0,
                outcomes@.len() * stride < v@.len(),
                stride > 0,
                best_of(best, v@, stride as int, outcomes@, |d: Cand| d.kind.place() < k || d.kind == kind && d.off < off),
            decreases sz + ks - off,
        {
            let up = Cand { off, kind, desc: false };
            let down = Cand { off, kind, desc: true };
            proof {
                lemma_among(best, v@, stride as int, outcomes@, |d: Cand| d.kind.place() < k || d.kind == kind && d.off < off, |d: Cand| earlier(d, up));
            }
            best = consider(best, up, v, stride, outcomes);
            proof {
                lemma_among(best, v@, stride as int, outcomes@, |d: Cand| d == up || earlier(d, up), |d: Cand| earlier(d, down));
            }
            best = consider(best, down, v, stride, outcomes);
            proof {
                lemma_next_multiple(off as int, ks as int);
            }
            proof {
                lemma_among(best, v@, stride as int, outcomes@, |d: Cand| d == down || earlier(d, down), |d: Cand| d.kind.place() < k || d.kind == kind && d.off < off + ks);
            }
            off += ks;
        }
        proof {
            assert forall|d: Cand| d.kind.place() == k implies d.kind == kind by {}
            lemma_among(best, v@, stride as int, outcomes@, |d: Cand| d.kind.place() < k || d.kind == kind && d.off < off, |d: Cand| d.kind.place() < k + 1);
        }
        k += 1;
    }
    proof {
        lemma_among(best, v@, stride as int, outcomes@, |d: Cand| d.kind.place() < k, |d: Cand| true);
    }
    best
}

/// Two ways to name the same candidates.
proof fn lemma_among<T: PlainBytes>(r: Option<Cand>, v: Seq<T>, stride: int, outcomes: Seq<i32>, p: spec_fn(Cand) -> bool, q: spec_fn(Cand) -> bool)
    requires
        best_of(r, v, stride, outcomes, p),
        forall|d: Cand| cand_fits(d, T::width() as int) ==> #[trigger] p(d) == q(d),
    ensures
        best_of(r, v, stride, outcomes, q),
{
    assert forall|d: Cand| cand_fits(d, T::width() as int) && #[trigger] agrees(d, v, stride, outcomes) implies p(d) == q(d) by {}
    if let Some(c) = r {
        assert(p(c) == q(c));
    }
}

// ---- inference -----------------------------------------------------------------------------------

/// How many pairs of `n` elements the comparator is asked about.
pub open spec fn pairs_of(n: int) -> int {
    if n - 1 < SAMPLE_PAIRS {
        n - 1
    } else {
        SAMPLE_PAIRS as int
    }
}

/// How far apart they are.
pub open spec fn stride_of(n: int) -> int {
    (n - 1) / pairs_of(n)
}

/// How `x` and `y` compare by `le`: -1, 0 or 1.
pub open spec fn sign_by<T>(le: spec_fn(T, T) -> bool, x: T, y: T) -> i32 {
    if !le(y, x) {
        -1i32
    } else if !le(x, y) {
        1
    } else {
        0
    }
}

/// The outcomes of the sampled pairs.
pub open spec fn outcomes_of<T>(le: spec_fn(T, T) -> bool, v: Seq<T>) -> Seq<i32> {
    let stride = stride_of(v.len() as int);
    Seq::new(pairs_of(v.len() as int) as nat, |k: int| sign_by(le, v[k * stride], v[k * stride + 1]))
}

/// What is inferred of `v` and the order `le`: the best window that agrees with
/// every sampled outcome, where there are elements to sample and not all
/// outcomes are ties.
pub open spec fn inferred<T: PlainBytes>(le: spec_fn(T, T) -> bool, v: Seq<T>, r: Option<Cand>) -> bool {
    if T::width() == 0 || v.len() < 2 || (forall|k: int| 0 <= k < outcomes_of(le, v).len() ==> #[trigger] outcomes_of(le, v)[k] == 0) {
        r is None
    } else {
        best_of(r, v, stride_of(v.len() as int), outcomes_of(le, v), |d: Cand| true)
    }
}

/// The window that agrees with every sampled comparator outcome, if any.
pub fn infer<T: PlainBytes, C: Compare<T>>(v: &[T], c: &C) -> (r: Option<Cand>)
    requires
        all_taken(c, v@),
    ensures
        r matches Some(w) ==> cand_fits(w, T::width() as int),
        forall|le: spec_fn(T, T) -> bool| #[trigger] c.follows(le) ==> inferred(le, v@, r),
{
    let n: usize = v.len();
    if T::size() == 0 || n < 2 {
        return None;
    }
    let pairs: usize = if n - 1 < SAMPLE_PAIRS {
        n - 1
    } else {
        SAMPLE_PAIRS
    };
    let stride: usize = (n - 1) / pairs;
    assert(pairs * stride <= n - 1 && stride >= 1) by (nonlinear_arith)
        requires
            stride == (n - 1) / (pairs as int),
            1 <= pairs <= n - 1,
    ;
    let mut outcomes: Vec<i32> = Vec::with_capacity(pairs);
    let mut tied = true;
    let mut k: usize = 0;
    while k < pairs
        invariant
            k <= pairs,
            n == v@.len(),
            n >= 2,
            pairs == pairs_of(n as int),
            stride == stride_of(n as int),
            pairs * stride <= n - 1,
            stride >= 1,
            all_taken(c, v@),
            outcomes@.len() == k,
            tied == (forall|h: int| 0 <= h < k ==> #[trigger] outcomes@[h] == 0),
            forall|le: spec_fn(T, T) -> bool, h: int| #![trigger c.follows(le), outcomes@[h]] c.follows(le) && 0 <= h < k ==> outcomes@[h] == outcomes_of(le, v@)[h],
        decreases pairs - k,
    {
        assert(k * stride + 1 <= pairs * stride) by (nonlinear_arith)
            requires
                k < pairs,
                stride >= 1,
        ;
        let i: usize = k * stride;
        let o: i32 = c.order(&v[i], &v[i + 1]);
        let ghost before = outcomes@;
        let ghost was = tied;
        tied = tied && o == 0;
        outcomes.push(o);
        k += 1;
        proof {
            if !was {
                let h = choose|h: int| 0 <= h < k - 1 && #[trigger] before[h] != 0;
                assert(outcomes@[h] != 0);
            }
            assert(outcomes@[k - 1] == o);
            assert forall|le: spec_fn(T, T) -> bool| #[trigger] c.follows(le) implies o == outcomes_of(le, v@)[k - 1] by {
                c.follows_total(le);
                assert(le(v@[i as int], v@[i + 1]) || le(v@[i + 1], v@[i as int]));
            }
        }
    }
    proof {
        assert forall|le: spec_fn(T, T) -> bool| #[trigger] c.follows(le) implies outcomes@ =~= outcomes_of(le, v@) by {
            assert forall|h: int| 0 <= h < pairs implies outcomes@[h] == outcomes_of(le, v@)[h] by {}
        }
    }
    if tied {
        return None;
    }
    choose_window(v, stride, &outcomes)
}

// ---- the verified sort ---------------------------------------------------------------------------

/// Positions in ascending order.
struct Ascending;

impl Compare<u32> for Ascending {
    open spec fn follows(&self, le: spec_fn(u32, u32) -> bool) -> bool {
        le == by_key(|x: u32| x as int)
    }

    open spec fn takes(&self, x: u32, y: u32) -> bool {
        true
    }

    open spec fn loads(&self, a: u32, b: u32) -> Option<u64> {
        None
    }

    fn note_bytes<H: Hooks>(&self, a: &u32, b: &u32, hooks: &mut H) {
    }

    proof fn follows_total(&self, le: spec_fn(u32, u32) -> bool) {
        lemma_by_key_total(|x: u32| x as int);
    }

    fn order(&self, a: &u32, b: &u32) -> (r: i32) {
        if *a < *b {
            -1
        } else if *a > *b {
            1
        } else {
            0
        }
    }
}

/// Puts `ix[s, e)` into ascending order.
fn fix_class(ix: &mut Vec<u32>, s: usize, e: usize)
    requires
        s <= e <= old(ix)@.len(),
    ensures
        final(ix)@.len() == old(ix)@.len(),
        permutation(old(ix)@, final(ix)@),
        permutation(old(ix)@.subrange(s as int, e as int), final(ix)@.subrange(s as int, e as int)),
        forall|k: int| 0 <= k < s || e <= k < old(ix)@.len() ==> final(ix)@[k] == old(ix)@[k],
        forall|i: int, j: int| s <= i <= j < e ==> final(ix)@[i] <= final(ix)@[j],
{
    let ghost x = ix@;
    let ghost mut m: Seq<u32> = Seq::empty();
    {
        let all: &mut [u32] = ix;
        let (front, rest) = all.split_at_mut(s);
        let (mid, back) = rest.split_at_mut(e - s);
        proof {
            assert(Ascending.follows(by_key(|x: u32| x as int)));
            assert(mid@ =~= x.subrange(s as int, e as int));
        }
        std_sort_by(mid, &Ascending);
        proof {
            lemma_permutation_len(x.subrange(s as int, e as int), mid@);
            m = mid@;
        }
    }
    proof {
        let y = ix@;
        assert(y.subrange(s as int, e as int) =~= m);
        let (a, b, c) = (x.take(s as int), x.subrange(s as int, e as int), x.skip(e as int));
        let d = y.subrange(s as int, e as int);
        assert(y.take(s as int) =~= a);
        assert(y.skip(e as int) =~= c);
        lemma_permutation_add(a, b, a, d);
        lemma_permutation_add(a + b, c, a + d, c);
        assert(a + b + c =~= x);
        assert(a + d + c =~= y);
        let le = by_key(|x: u32| x as int);
        assert(sorted(le, d));
        assert forall|i: int, j: int| s <= i <= j < e implies y[i] <= y[j] by {
            assert(le(d[i - s], d[j - s]));
        }
    }
}

/// The first `i` of the positions `x0` were compared one after the other. The
/// positions `x` are in order up to the class from `s` on, which spans several
/// keys where `mixed` is set, and in order altogether where it is not.
spec fn checked<T>(le: spec_fn(T, T) -> bool, v: Seq<T>, x0: Seq<u32>, x: Seq<u32>, s: int, i: int, mixed: bool) -> bool {
    let ple = position_le(le, v);
    &&& 0 <= s < i <= x0.len() == x.len()
    &&& forall|k: int| s <= k < x.len() ==> x[k] == x0[k]
    &&& forall|k: int| 1 <= k < i ==> !#[trigger] descent(le, picked(v, ints(x0)), k)
    &&& forall|k: int| 1 <= k < i && (mixed ==> k < s) ==> !#[trigger] descent(ple, ints(x), k)
    &&& s > 0 ==> !le(v[x[s] as int], v[x[s - 1] as int])
    &&& mixed ==> forall|k: int| s < k < i ==> le(v[#[trigger] x0[k] as int], v[x0[k - 1] as int])
}

/// Positions of a class that was checked are tied.
proof fn lemma_class_span<T>(le: spec_fn(T, T) -> bool, v: Seq<T>, x0: Seq<u32>, x: Seq<u32>, s: int, i: int, a: int, b: int)
    requires
        total_preorder(le),
        checked(le, v, x0, x, s, i, true),
        s <= a <= b < i,
    ensures
        tied(le, v[x0[a] as int], v[x0[b] as int]),
    decreases b - a,
{
    let p = picked(v, ints(x0));
    if a < b {
        lemma_class_span(le, v, x0, x, s, i, a, b - 1);
        assert(!descent(le, p, b));
        assert(le(v[x0[b] as int], v[x0[b - 1] as int]));
        assert(le(v[x0[b - 1] as int], v[x0[b] as int]));
    } else {
        let y = v[x0[a] as int];
        assert(le(y, y));
    }
}

/// A class that spans several keys was put into ascending order.
proof fn lemma_class_fixed<T>(le: spec_fn(T, T) -> bool, v: Seq<T>, x0: Seq<u32>, x: Seq<u32>, y: Seq<u32>, s: int, i: int)
    requires
        total_preorder(le),
        checked(le, v, x0, x, s, i, true),
        y.len() == x.len(),
        permutation(x.subrange(s, i), y.subrange(s, i)),
        forall|k: int| 0 <= k < s || i <= k < x.len() ==> y[k] == x[k],
        forall|a: int, b: int| s <= a <= b < i ==> y[a] <= y[b],
    ensures
        forall|k: int| 1 <= k < i ==> !#[trigger] descent(position_le(le, v), ints(y), k),
        tied(le, v[x0[i - 1] as int], v[y[i - 1] as int]),
{
    let ple = position_le(le, v);
    let (p, q) = (x.subrange(s, i), y.subrange(s, i));
    assert forall|k: int| #![trigger y[k]] s <= k < i implies exists|h: int| s <= h < i && #[trigger] x0[h] == y[k] by {
        let h = lemma_permutation_member(q, p, k - s);
        assert(q[k - s] == y[k]);
        assert(x0[h + s] == y[k]);
    }
    assert forall|k: int| 1 <= k < i implies !#[trigger] descent(ple, ints(y), k) by {
        if k < s {
            assert(!descent(ple, ints(x), k));
        } else {
            let h = choose|h: int| s <= h < i && #[trigger] x0[h] == y[k];
            if k == s {
                lemma_class_span(le, v, x0, x, s, i, s, h);
                let (u, w, z) = (v[x[s] as int], v[x[s - 1] as int], v[y[s] as int]);
                assert(!le(u, w));
                assert(le(w, u)) by {
                    assert(le(u, w) || le(w, u));
                }
                assert(le(w, z));
                if le(z, w) {
                    assert(le(u, z) && le(z, w));
                }
            } else {
                let g = choose|g: int| s <= g < i && #[trigger] x0[g] == y[k - 1];
                if g <= h {
                    lemma_class_span(le, v, x0, x, s, i, g, h);
                } else {
                    lemma_class_span(le, v, x0, x, s, i, h, g);
                }
                assert(y[k - 1] <= y[k]);
            }
        }
    }
    let h = choose|h: int| s <= h < i && #[trigger] x0[h] == y[i - 1];
    lemma_class_span(le, v, x0, x, s, i, h, i - 1);
}

/// Compares the listed elements one after the other, and puts the elements of a
/// class that spans several keys into the order of the input. False where the
/// comparator puts an element before the one that is listed before it.
///
/// Neighbours with one window key are in the order of the input already and only
/// have to not descend; where the key changes the outcome decides whether a class
/// ends (less), the guess failed (greater), or a class spans two keys (equal).
/// `s` is the start of the current class while it spans keys, otherwise the last
/// key change that ended a class: the true start is then found by walking back
/// over the same-key pairs.
fn verify_listed<T: PlainBytes, C: Compare<T>>(v: &[T], w: Cand, c: &C, ix: &mut Vec<u32>) -> (r: bool)
    requires
        0 < v@.len() <= 0xFFFF_FFFF,
        cand_fits(w, T::width() as int),
        all_taken(c, v@),
        permutation(iota(v@.len()), ints(old(ix)@)),
        sorted(position_le(window_le::<T>(w), v@), ints(old(ix)@)),
    ensures
        r ==> lists_sorted(c, v@, final(ix)@) && final(ix)@.len() == v@.len(),
        forall|le: spec_fn(T, T) -> bool| #[trigger] c.follows(le) ==> r == sorted(le, picked(v@, ints(old(ix)@))),
{
    let ghost x0 = ix@;
    let ghost a = v@;
    let n: usize = v.len();
    proof {
        lemma_permutation_len(iota(n as nat), ints(x0));
        lemma_positions_distinct(n as nat, ints(x0));
        assert forall|k: int| 0 <= k < n implies (#[trigger] x0[k]) < n by {
            assert(0 <= ints(x0)[k] < n);
        }
        assert forall|le: spec_fn(T, T) -> bool| #[trigger] c.follows(le) implies checked(le, a, x0, x0, 0, 1, false) by {}
    }
    let mut s: usize = 0;
    let mut mixed = false;
    let mut i: usize = 1;
    while i < n
        invariant
            1 <= i <= n == a.len() == x0.len() == ix@.len(),
            n <= 0xFFFF_FFFF,
            a == v@,
            s < i,
            cand_fits(w, T::width() as int),
            all_taken(c, a),
            x0 == old(ix)@,
            permutation(x0, ix@),
            forall|k: int| 0 <= k < n ==> (#[trigger] x0[k]) < n,
            forall|k: int| s <= k < n ==> ix@[k] == x0[k],
            sorted(position_le(window_le::<T>(w), a), ints(x0)),
            forall|le: spec_fn(T, T) -> bool| #[trigger] c.follows(le) ==> checked(le, a, x0, ix@, s as int, i as int, mixed),
        decreases n - i,
    {
        let ghost x = ix@;
        let p: usize = ix[i - 1] as usize;
        let q: usize = ix[i] as usize;
        assert(p == x0[i - 1] && q == x0[i as int]);
        let o: i32 = c.order(&v[p], &v[q]);
        let ghost list = picked(a, ints(x0));
        proof {
            assert forall|le: spec_fn(T, T) -> bool| #[trigger] c.follows(le) implies descent(le, list, i as int) == (o > 0) by {}
        }
        if o > 0 {
            proof {
                assert forall|le: spec_fn(T, T) -> bool| #[trigger] c.follows(le) implies !sorted(le, list) by {
                    assert(!le(list[i - 1], list[i as int]));
                }
            }
            return false;
        }
        if !mixed && w.radix(&v[p]) == w.radix(&v[q]) {
            proof {
                let ple = position_le(window_le::<T>(w), a);
                assert(ple(ints(x0)[i - 1], ints(x0)[i as int]));
                assert forall|le: spec_fn(T, T) -> bool| #[trigger] c.follows(le) implies checked(le, a, x0, x, s as int, i + 1, false) by {
                    assert(!descent(position_le(le, a), ints(x), i as int));
                }
            }
        } else if o < 0 {
            if mixed {
                fix_class(ix, s, i);
                mixed = false;
                proof {
                    assert forall|le: spec_fn(T, T) -> bool| #[trigger] c.follows(le) implies checked(le, a, x0, ix@, i as int, i + 1, false) by {
                        c.follows_total(le);
                        lemma_class_fixed(le, a, x0, x, ix@, s as int, i as int);
                        let (y, z, t) = (a[x0[i - 1] as int], a[ix@[i - 1] as int], a[x0[i as int] as int]);
                        assert(!le(t, y));
                        assert(le(y, t));
                        assert(le(z, t));
                        if le(t, z) {
                            assert(le(t, z) && le(z, y));
                        }
                        assert(!descent(position_le(le, a), ints(ix@), i as int));
                        assert forall|k: int| 1 <= k < i + 1 implies !#[trigger] descent(position_le(le, a), ints(ix@), k) by {}
                        assert forall|k: int| 1 <= k < i + 1 implies !#[trigger] descent(le, picked(a, ints(x0)), k) by {}
                    }
                }
            } else {
                proof {
                    assert forall|le: spec_fn(T, T) -> bool| #[trigger] c.follows(le) implies checked(le, a, x0, x, i as int, i + 1, false) by {
                        assert(!descent(position_le(le, a), ints(x), i as int));
                    }
                }
            }
            s = i;
        } else {
            if !mixed {
                let mut j: usize = i - 1;
                let mut tied_back = true;
                while tied_back && j > s
                    invariant
                        s <= j < i < n == a.len() == x0.len() == ix@.len(),
                        a == v@,
                        all_taken(c, a),
                        ix@ == x,
                        forall|k: int| 0 <= k < n ==> (#[trigger] x0[k]) < n,
                        forall|k: int| s <= k < n ==> ix@[k] == x0[k],
                        forall|le: spec_fn(T, T) -> bool| #[trigger] c.follows(le) ==> checked(le, a, x0, x, s as int, i as int, false),
                        forall|le: spec_fn(T, T) -> bool, k: int| #![trigger c.follows(le), x0[k]] c.follows(le) && j < k < i ==> le(a[x0[k] as int], a[x0[k - 1] as int]),
                        !tied_back ==> j > s && forall|le: spec_fn(T, T) -> bool| #[trigger] c.follows(le) ==> !le(a[x0[j as int] as int], a[x0[j - 1] as int]),
                    decreases
                        j + if tied_back {
                            1int
                        } else {
                            0
                        },
                {
                    assert(ix@[j - 1] == x0[j - 1] && ix@[j as int] == x0[j as int]);
                    let d: i32 = c.order(&v[ix[j - 1] as usize], &v[ix[j] as usize]);
                    if d >= 0 {
                        j -= 1;
                    } else {
                        tied_back = false;
                    }
                }
                proof {
                    assert forall|le: spec_fn(T, T) -> bool| #[trigger] c.follows(le) implies checked(le, a, x0, x, j as int, i + 1, true) by {
                        assert forall|k: int| j < k < i + 1 implies le(a[#[trigger] x0[k] as int], a[x0[k - 1] as int]) by {
                            if k < i {
                                assert(c.follows(le));
                            }
                        }
                    }
                }
                s = j;
                mixed = true;
            } else {
                proof {
                    assert forall|le: spec_fn(T, T) -> bool| #[trigger] c.follows(le) implies checked(le, a, x0, x, s as int, i + 1, true) by {}
                }
            }
        }
        i += 1;
    }
    let ghost x = ix@;
    if mixed {
        fix_class(ix, s, n);
    }
    proof {
        let f = |x: u32| x as int;
        lemma_map_permutation(x0, ix@, f);
        lemma_permutation_len(x0, ix@);
        assert forall|le: spec_fn(T, T) -> bool| #[trigger] c.follows(le) implies sorted(position_le(le, a), ints(ix@)) && sorted(le, picked(a, ints(x0))) by {
            c.follows_total(le);
            lemma_position_le_total(le, a);
            if mixed {
                lemma_class_fixed(le, a, x0, x, ix@, s as int, n as int);
            }
            lemma_no_drop(position_le(le, a), ints(ix@));
            lemma_no_drop(le, picked(a, ints(x0)));
        }
    }
    true
}

/// Sorts `v` by the candidate through the records, verifies the result with the
/// comparator and restores stability inside the comparator's classes. False, with
/// `v` untouched, when the comparator disagrees with the candidate somewhere or
/// the memory is not there.
pub fn sort_verified<T: PlainBytes, C: Compare<T>, M: Alloc>(v: &mut [T], w: Cand, c: &C, mem: M) -> (r: (bool, M))
    requires
        0 < old(v)@.len() <= 0xFFFF_FFFF,
        cand_fits(w, T::width() as int),
        all_taken(c, old(v)@),
    ensures
        r.0 ==> ordered_by(c, old(v)@, final(v)@),
        !r.0 ==> final(v)@ == old(v)@,
        r.1.refusals() >= mem.refusals(),
        r.1.held() == mem.held(),
        r.1.refusals() == mem.refusals() ==> forall|le: spec_fn(T, T) -> bool, out: Seq<T>|
            #[trigger] c.follows(le) && #[trigger] stable_sort_of(window_le::<T>(w), old(v)@, out) ==> r.0 == sorted(le, out),
{
    let ghost s = v@;
    let (list, mem) = list_window(&*v, w, mem);
    let mut ix: Vec<u32> = match list {
        Some(x) => x,
        None => {
            return (false, mem);
        },
    };
    let ghost x0 = ix@;
    let good = verify_listed(&*v, w, c, &mut ix);
    proof {
        let key = window_le::<T>(w);
        lemma_by_key_total(|x: T| cand_radix(w, x.bytes()));
        lemma_picked_sort(key, s, ints(x0));
        assert forall|le: spec_fn(T, T) -> bool, out: Seq<T>| #[trigger] c.follows(le) && #[trigger] stable_sort_of(key, s, out) implies good == sorted(le, out) by {
            stable_sort_is_unique(key, s, out, picked(s, ints(x0)));
        }
    }
    let mut mem: M = mem;
    if good {
        apply_list(v, ix, c, &mut mem);
    } else {
        free_array(&mut mem, ix, v.len());
    }
    (good, mem)
}

/// The positions in the order of the window, ties in the order of the input.
fn list_window<T: PlainBytes, M: Alloc>(v: &[T], w: Cand, mem: M) -> (r: (Option<Vec<u32>>, M))
    requires
        v@.len() <= 0xFFFF_FFFF,
        cand_fits(w, T::width() as int),
    ensures
        r.0 matches Some(ix) ==> ix@.len() == v@.len() && permutation(iota(v@.len()), ints(ix@)) && sorted(
            position_le(window_le::<T>(w), v@),
            ints(ix@),
        ),
        r.1.refusals() >= mem.refusals(),
        r.0 is None ==> r.1.refusals() > mem.refusals(),
        r.1.held() == mem.held() + if r.0 is Some {
            space::<u32>(v@.len())
        } else {
            0
        },
{
    let ghost le = window_le::<T>(w);
    proof {
        reveal_with_fuel(width_sum, 2);
        assert(<u64 as Key>::parts().drop_last() =~= Seq::<Part>::empty());
        assert(<u32 as Key>::parts().drop_last() =~= Seq::<Part>::empty());
    }
    if w.kind.wide() {
        let f = |x: &T| -> (r: u64)
            requires
                cand_fits(w, T::width() as int),
            ensures
                r == cand_radix(w, x.bytes()),
            { w.radix(x) };
        let r = list_by_key::<T, u64, _, Rec64, M>(v, f, mem);
        proof {
            let k = |x: T| one_fixed(64, cand_radix(w, x.bytes()) as u64);
            assert(computes(f, k)) by {
                assert forall|x: T, y: u64| #[trigger] call_ensures(f, (&x,), y) implies y.leaves() == k(x) by {}
            }
            assert forall|x: T, y: T| #[trigger] by_leaves(k)(x, y) == le(x, y) by {
                lemma_cand_range(w, x.bytes());
                lemma_cand_range(w, y.bytes());
                fixed_in_order(64, cand_radix(w, x.bytes()) as u64, cand_radix(w, y.bytes()) as u64);
            }
            assert(by_leaves(k) =~= le);
            assert forall|l: Seq<LeafModel>| #[trigger] shaped(l, <u64 as Key>::parts()) implies all_short(l) by {
                lemma_fixed_short(l, <u64 as Key>::parts());
            }
        }
        r
    } else {
        let f = |x: &T| -> (r: u32)
            requires
                cand_fits(w, T::width() as int),
                w.kind.bytes() < 8,
            ensures
                r == cand_radix(w, x.bytes()),
            { w.radix(x) as u32 };
        let r = list_by_key::<T, u32, _, Rec32, M>(v, f, mem);
        proof {
            let k = |x: T| one_fixed(32, cand_radix(w, x.bytes()) as u64);
            assert(computes(f, k)) by {
                assert forall|x: T, y: u32| #[trigger] call_ensures(f, (&x,), y) implies y.leaves() == k(x) by {}
            }
            assert forall|x: T, y: T| #[trigger] by_leaves(k)(x, y) == le(x, y) by {
                lemma_cand_range(w, x.bytes());
                lemma_cand_range(w, y.bytes());
                fixed_in_order(32, cand_radix(w, x.bytes()) as u64, cand_radix(w, y.bytes()) as u64);
            }
            assert(by_leaves(k) =~= le);
            assert forall|l: Seq<LeafModel>| #[trigger] shaped(l, <u32 as Key>::parts()) implies all_short(l) by {
                lemma_fixed_short(l, <u32 as Key>::parts());
            }
        }
        r
    }
}

/// The comparator sort with key inference: the ordered-input routes, then the
/// inferred window, then the comparison sort.
pub fn sort_by_inferred_impl<T: PlainBytes, C: Compare<T>, M: Alloc>(v: &mut [T], c: &C, mem: M) -> (r: M)
    requires
        all_taken(c, old(v)@),
        is_order(c),
    ensures
        ordered_by(c, old(v)@, final(v)@),
        r.refusals() >= mem.refusals(),
        r.held() == mem.held(),
{
    let n: usize = v.len();
    let mut mem: M = mem;
    if n <= SMALL_SORT {
        small_sort(v, c);
        return mem;
    }
    if sort_known_shape(v, c, usize::MAX, &mut mem) {
        return mem;
    }
    if INFER_MIN <= n && n <= 0xFFFF_FFFF {
        if let Some(w) = infer(&*v, c) {
            let (done, left) = sort_verified(v, w, c, mem);
            if done {
                return left;
            }
            mem = left;
        }
    }
    comparison_sort(v, c, &mut mem);
    mem
}

/// Sorts `v` by a function that answers with a number, with key inference.
pub fn sort_by_sign_inferred<T: PlainBytes, F: Fn(&T, &T) -> i32, M: Alloc>(v: &mut [T], f: F, mem: M)
    requires
        forall|i: int, j: int| 0 <= i < old(v)@.len() && 0 <= j < old(v)@.len() ==> call_requires(f, (&#[trigger] old(v)@[i], &#[trigger] old(v)@[j])),
        exists|le: spec_fn(T, T) -> bool| #[trigger] sign_follows(f, le),
    ensures
        forall|le: spec_fn(T, T) -> bool| #[trigger] sign_follows(f, le) ==> stable_sort_of(le, old(v)@, final(v)@),
{
    let c = BySign(f);
    let ghost s = v@;
    proof {
        let le = choose|le: spec_fn(T, T) -> bool| #[trigger] sign_follows(f, le);
        assert(c.follows(le));
        assert forall|i: int, j: int| 0 <= i < s.len() && 0 <= j < s.len() implies c.takes(#[trigger] s[i], #[trigger] s[j]) by {}
    }
    let _ = sort_by_inferred_impl(v, &c, mem);
    proof {
        assert forall|le: spec_fn(T, T) -> bool| #[trigger] sign_follows(f, le) implies stable_sort_of(le, s, v@) by {
            assert(c.follows(le));
        }
    }
}

} // verus!
