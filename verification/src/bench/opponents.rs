//! The sorts of other crates that the timed comparison runs beside this one.
use crate::{sort, sort_by_key};
use crate::infer::PlainBytes;
use crate::key::{by_leaves, Key};
use crate::key::laws::{i32_in_order, i64_in_order};
use crate::order::{by_key, lemma_antisymmetric_stable, permutation, sorted, stable_sort_of};
use crate::project::computes;
use vstd::prelude::*;

verus! {

// ---- the elements --------------------------------------------------------------------------------

/// A 64-byte record sorted by its first field.
#[derive(Clone, Copy, Debug)]
pub struct Row {
    pub key: i64,
    pub payload: [u8; 56],
}

impl Row {
    /// The row of a key.
    pub fn new(key: i64) -> (r: Row)
        ensures
            r.key == key,
            forall|i: int| 0 <= i < 56 ==> #[trigger] r.payload@[i] == 0,
    {
        Row { key, payload: [0u8;56] }
    }
}

impl PlainBytes for Row {
    open spec fn width() -> nat {
        64
    }

    open spec fn bytes(&self) -> Seq<u8> {
        self.key.bytes() + self.payload@
    }

    proof fn bytes_width(&self) {
    }

    fn size() -> (r: usize) {
        64
    }

    fn byte(&self, i: usize) -> (r: u8) {
        if i < 8 {
            self.key.byte(i)
        } else {
            self.payload[i - 8]
        }
    }
}

/// The numbers in order.
pub open spec fn i32_le() -> spec_fn(i32, i32) -> bool {
    by_key(|x: i32| x as int)
}

/// The numbers in order.
pub open spec fn i64_le() -> spec_fn(i64, i64) -> bool {
    by_key(|x: i64| x as int)
}

/// The rows in the order of their keys.
pub open spec fn row_le() -> spec_fn(Row, Row) -> bool {
    by_key(|x: Row| x.key as int)
}

// ---- the calls -----------------------------------------------------------------------------------

/// `radsort::sort` on 32-bit integers: a stable sort in ascending order.
#[verifier::external_body]
fn radsort_i32(v: &mut Vec<i32>)
    ensures
        stable_sort_of(i32_le(), old(v)@, final(v)@),
{
    radsort::sort(v)
}

/// `radsort::sort` on 64-bit integers: a stable sort in ascending order.
#[verifier::external_body]
fn radsort_i64(v: &mut Vec<i64>)
    ensures
        stable_sort_of(i64_le(), old(v)@, final(v)@),
{
    radsort::sort(v)
}

/// `radsort::sort_by_key` on rows by their first field: a stable sort in
/// ascending order of the keys.
#[verifier::external_body]
fn radsort_rows(v: &mut Vec<Row>)
    ensures
        stable_sort_of(row_le(), old(v)@, final(v)@),
{
    radsort::sort_by_key(v, |r: &Row| r.key)
}

/// `voracious_radix_sort::RadixSort::voracious_sort` on a vector of 32-bit
/// integers: a sort in ascending order.
#[verifier::external_body]
fn voracious_i32(v: &mut Vec<i32>)
    ensures
        sorted(i32_le(), final(v)@),
        permutation(old(v)@, final(v)@),
{
    voracious_radix_sort::RadixSort::voracious_sort(v)
}

/// `voracious_radix_sort::RadixSort::voracious_sort` on a vector of 64-bit
/// integers: a sort in ascending order.
#[verifier::external_body]
fn voracious_i64(v: &mut Vec<i64>)
    ensures
        sorted(i64_le(), final(v)@),
        permutation(old(v)@, final(v)@),
{
    voracious_radix_sort::RadixSort::voracious_sort(v)
}

/// `voracious_radix_sort::RadixSort::voracious_stable_sort` on a vector of 32-bit
/// integers: a sort in ascending order. That equal elements keep their order is
/// left unsaid: on a vector the crate forwards this call to its unstable sort.
#[verifier::external_body]
fn voracious_stable_i32(v: &mut Vec<i32>)
    ensures
        sorted(i32_le(), final(v)@),
        permutation(old(v)@, final(v)@),
{
    voracious_radix_sort::RadixSort::voracious_stable_sort(v)
}

/// `voracious_radix_sort::RadixSort::voracious_stable_sort` on a vector of 64-bit
/// integers: a sort in ascending order. That equal elements keep their order is
/// left unsaid: on a vector the crate forwards this call to its unstable sort.
#[verifier::external_body]
fn voracious_stable_i64(v: &mut Vec<i64>)
    ensures
        sorted(i64_le(), final(v)@),
        permutation(old(v)@, final(v)@),
{
    voracious_radix_sort::RadixSort::voracious_stable_sort(v)
}

/// `rdst::RadixSort::radix_sort_builder` and the builder's `sort` on 32-bit
/// integers, on the calling thread: a sort in ascending order.
#[verifier::external_body]
fn rdst_i32(v: &mut Vec<i32>)
    ensures
        sorted(i32_le(), final(v)@),
        permutation(old(v)@, final(v)@),
{
    rdst::RadixSort::radix_sort_builder(v).with_single_threaded_tuner().with_parallel(false).sort()
}

/// `rdst::RadixSort::radix_sort_builder` and the builder's `sort` on 64-bit
/// integers, on the calling thread: a sort in ascending order.
#[verifier::external_body]
fn rdst_i64(v: &mut Vec<i64>)
    ensures
        sorted(i64_le(), final(v)@),
        permutation(old(v)@, final(v)@),
{
    rdst::RadixSort::radix_sort_builder(v).with_single_threaded_tuner().with_parallel(false).sort()
}

// ---- which sort runs on what ---------------------------------------------------------------------

/// A sort of another crate.
#[derive(Clone, Copy, Debug, PartialEq, Eq, Structural)]
pub enum RadixCrate {
    Radsort,
    VoraciousStable,
    VoraciousUnstable,
    Rdst,
}

/// The sorts of other crates.
pub const RADIX_CRATES: usize = 4;

impl RadixCrate {
    /// The sort of this number.
    pub open spec fn nth(i: int) -> RadixCrate {
        if i == 0 {
            RadixCrate::Radsort
        } else if i == 1 {
            RadixCrate::VoraciousStable
        } else if i == 2 {
            RadixCrate::VoraciousUnstable
        } else {
            RadixCrate::Rdst
        }
    }

    /// The sort of this number, in the order of the table's columns.
    pub fn at(i: usize) -> (r: RadixCrate)
        requires
            i < RADIX_CRATES,
        ensures
            r == Self::nth(i as int),
    {
        match i {
            0 => RadixCrate::Radsort,
            1 => RadixCrate::VoraciousStable,
            2 => RadixCrate::VoraciousUnstable,
            _ => RadixCrate::Rdst,
        }
    }

    /// Whether the sort is a stable one.
    pub open spec fn is_stable(self) -> bool {
        self is Radsort || self is VoraciousStable
    }

    /// The head of the sort's column.
    pub open spec fn title(self) -> Seq<char> {
        match self {
            RadixCrate::Radsort => "radsort"@,
            RadixCrate::VoraciousStable => "voracious stable"@,
            RadixCrate::VoraciousUnstable => "voracious unstable"@,
            RadixCrate::Rdst => "rdst"@,
        }
    }

    /// The head of the sort's column.
    pub fn name(self) -> (r: &'static str)
        ensures
            r@ == self.title(),
    {
        match self {
            RadixCrate::Radsort => "radsort",
            RadixCrate::VoraciousStable => "voracious stable",
            RadixCrate::VoraciousUnstable => "voracious unstable",
            RadixCrate::Rdst => "rdst",
        }
    }
}

/// An element type of the timed comparison.
pub trait Opponents: Sized {
    /// The order of the elements.
    spec fn le() -> spec_fn(Self, Self) -> bool;

    /// Whether the sort runs on the elements.
    spec fn runs(c: RadixCrate) -> bool;

    /// Runs the sort where it can run.
    fn run(c: RadixCrate, v: &mut Vec<Self>) -> (r: bool)
        ensures
            r == Self::runs(c),
            r ==> sorted(Self::le(), final(v)@) && permutation(old(v)@, final(v)@),
            r && c.is_stable() ==> stable_sort_of(Self::le(), old(v)@, final(v)@),
            !r ==> final(v)@ == old(v)@,
    ;

    /// Sorts by this library.
    fn brainsort(v: &mut Vec<Self>)
        ensures
            stable_sort_of(Self::le(), old(v)@, final(v)@),
    ;
}

impl Opponents for i32 {
    open spec fn le() -> spec_fn(i32, i32) -> bool {
        i32_le()
    }

    open spec fn runs(c: RadixCrate) -> bool {
        true
    }

    fn run(c: RadixCrate, v: &mut Vec<i32>) -> (r: bool) {
        match c {
            RadixCrate::Radsort => radsort_i32(v),
            RadixCrate::VoraciousStable => voracious_stable_i32(v),
            RadixCrate::VoraciousUnstable => voracious_i32(v),
            RadixCrate::Rdst => rdst_i32(v),
        }
        proof {
            lemma_antisymmetric_stable(i32_le(), old(v)@, v@);
        }
        true
    }

    fn brainsort(v: &mut Vec<i32>) {
        proof {
            let f = |x: i32| x.leaves();
            assert forall|x: i32, y: i32| #[trigger] by_leaves(f)(x, y) == i32_le()(x, y) by {
                i32_in_order(x, y);
            }
            assert(by_leaves(f) =~= i32_le());
        }
        sort(v.as_mut_slice());
    }
}

impl Opponents for i64 {
    open spec fn le() -> spec_fn(i64, i64) -> bool {
        i64_le()
    }

    open spec fn runs(c: RadixCrate) -> bool {
        true
    }

    fn run(c: RadixCrate, v: &mut Vec<i64>) -> (r: bool) {
        match c {
            RadixCrate::Radsort => radsort_i64(v),
            RadixCrate::VoraciousStable => voracious_stable_i64(v),
            RadixCrate::VoraciousUnstable => voracious_i64(v),
            RadixCrate::Rdst => rdst_i64(v),
        }
        proof {
            lemma_antisymmetric_stable(i64_le(), old(v)@, v@);
        }
        true
    }

    fn brainsort(v: &mut Vec<i64>) {
        proof {
            let f = |x: i64| x.leaves();
            assert forall|x: i64, y: i64| #[trigger] by_leaves(f)(x, y) == i64_le()(x, y) by {
                i64_in_order(x, y);
            }
            assert(by_leaves(f) =~= i64_le());
        }
        sort(v.as_mut_slice());
    }
}

/// Of the four only radsort takes a key function; a row type that carries the key
/// trait of another crate is its own opponent there.
impl Opponents for Row {
    open spec fn le() -> spec_fn(Row, Row) -> bool {
        row_le()
    }

    open spec fn runs(c: RadixCrate) -> bool {
        c is Radsort
    }

    fn run(c: RadixCrate, v: &mut Vec<Row>) -> (r: bool) {
        match c {
            RadixCrate::Radsort => {
                radsort_rows(v);
                true
            },
            _ => false,
        }
    }

    fn brainsort(v: &mut Vec<Row>) {
        let ghost f = |x: Row| x.key.leaves();
        proof {
            assert forall|x: Row, y: Row| #[trigger] by_leaves(f)(x, y) == row_le()(x, y) by {
                i64_in_order(x.key, y.key);
            }
            assert(by_leaves(f) =~= row_le());
            assert(computes(row_key, f));
        }
        sort_by_key(v.as_mut_slice(), row_key);
    }
}

fn row_key(r: &Row) -> (k: i64)
    ensures
        k == r.key,
{
    r.key
}

} // verus!
