//! The sorts. A key projection is turned into records, the records are sorted
//! by the core algorithm, and the elements are permuted once; sorted, reversed
//! and nearly sorted input is recognised on the elements before anything is
//! built.
use crate::algorithm::{at_ease, brainsort_impl, Scratch, MAX_POP};
use crate::algorithm::displaced::{
    few_displaced, lemma_pops_range, numbers, pops_from, scan_ends, sort_displaced,
};
use crate::algorithm::monotone::reverse_stable;
use crate::algorithm::scout::{
    ascent, ascents_to, descent, descents_to, lemma_counts_grow, lemma_no_descents,
    lemma_sorted_no_descents,
};
use crate::compare::{
    all_taken, index_le, ints, is_order, lemma_index_sorted, lemma_lists_sorted, lists_sorted,
    numbers_to, ordered_by, sign_follows, std_sort_by, BySign, Compare, IndexOrder,
};
use crate::compsort::merge_natural_runs;
use crate::cpu::Machine;
use crate::key::{by_leaves, part_of, shaped, Key, LeafModel};
use crate::key::laws::{f32_nan, f64_nan};
use crate::key::number::{one_fixed, F32Bits, F64Bits};
use crate::less::{insertion_sort_by, Less};
use crate::order::{
    by_key, class, iota, lemma_filter_index, lemma_filter_index_lt, lemma_filter_sorted,
    lemma_map_permutation, lemma_permutation_len, lemma_permutation_member, lemma_stable_trans,
    permutation, picked, position_le, sorted, stable_sort_of, tied_with,
};
use crate::permute::permute_cycles;
use crate::project::{computes, ByVal, Identity, Proj, StoredOrder};
use crate::record::{all_short, leaf_bits, packed, Rec32, Rec64, Record};
use crate::record::composite::CompRec;
use crate::record::string::StrRec;
use crate::shape::{none_bytes, width_sum, Part, MAX_PARTS};
use crate::view::{
    alloc_array, elem_le, free_array, lemma_elem_le_total, lemma_no_space, space, Alloc, AllocError,
    Elem, NoHooks,
};
use vstd::prelude::*;

verus! {

/// Below this many elements the elements themselves are insertion sorted by
/// key: no allocation, and cheaper than building records.
pub const SMALL_SORT: usize = 32;

/// Elements up to this size are sorted in place on nearly sorted input; larger
/// ones through the records.
pub const ELEMENT_ROUTE_MAX: usize = 16;

/// Elements up to this size are sorted in place on nearly sorted input where a
/// comparison sorts them.
pub const COMPARED_ROUTE_MAX: usize = 64;

/// How often the prescan asks whether the input is unordered for certain.
pub const PRESCAN_BLOCK: usize = 256;

// ---- the prescan ---------------------------------------------------------------------------------

/// What one pass over the keys found, before any record is built or memory
/// allocated.
#[derive(Clone, Copy, PartialEq, Eq, Debug, Structural)]
pub enum Shape {
    /// Nothing recognised.
    Unordered,
    /// No descents.
    Sorted,
    /// No ascents.
    Reversed,
    /// At most n/16 descents.
    NearlySorted,
}

/// The result of the prescan.
#[derive(Clone, Copy, PartialEq, Eq, Debug, Structural)]
pub struct PrescanResult {
    /// The shape.
    pub shape: Shape,
    /// Descents.
    pub descents: usize,
    /// Ascents.
    pub ascents: usize,
}

impl Default for PrescanResult {
    fn default() -> (r: Self)
        ensures
            r == (PrescanResult { shape: Shape::Unordered, descents: 0, ascents: 0 }),
    {
        PrescanResult { shape: Shape::Unordered, descents: 0, ascents: 0 }
    }
}

/// The shape of `n` elements with the given descents and ascents.
pub open spec fn shape_of(n: int, descents: int, ascents: int) -> Shape {
    if descents == 0 {
        Shape::Sorted
    } else if ascents == 0 {
        Shape::Reversed
    } else if descents <= n / 16 {
        Shape::NearlySorted
    } else {
        Shape::Unordered
    }
}

fn classify(n: usize, descents: usize, ascents: usize) -> (r: PrescanResult)
    ensures
        r == (PrescanResult { shape: shape_of(n as int, descents as int, ascents as int), descents, ascents }),
{
    let shape: Shape = if descents == 0 {
        Shape::Sorted
    } else if ascents == 0 {
        Shape::Reversed
    } else if descents <= n / 16 {
        Shape::NearlySorted
    } else {
        Shape::Unordered
    };
    PrescanResult { shape, descents, ascents }
}

/// The counts up to element `i` prove the input unordered: the
/// displaced-element route gives up once the displaced elements exceed an eighth
/// of those scanned and 64, and every descent displaces at least one element.
pub open spec fn hopeless<T>(le: spec_fn(T, T) -> bool, s: Seq<T>, i: int) -> bool {
    &&& i % (PRESCAN_BLOCK as int) == 0
    &&& ascents_to(le, s, i + 1) > 0
    &&& descents_to(le, s, i + 1) > i / 8 + 64
}

/// What the prescan of `s` finds: the shape, unless the counts prove the input
/// unordered on the way.
pub open spec fn prescanned<T>(le: spec_fn(T, T) -> bool, s: Seq<T>, r: PrescanResult) -> bool {
    let n = s.len() as int;
    if exists|i: int| 1 <= i < n && #[trigger] hopeless(le, s, i) {
        r == (PrescanResult { shape: Shape::Unordered, descents: 0, ascents: 0 })
    } else {
        &&& r.descents == descents_to(le, s, n)
        &&& r.ascents == ascents_to(le, s, n)
        &&& r.shape == shape_of(n, r.descents as int, r.ascents as int)
    }
}

/// The pass counts descents and ascents and stops as soon as the counts prove
/// the input unordered (a few hundred elements into random input), so an
/// expensive key function is called few times on such input.
pub fn prescan<T, C: Compare<T>>(v: &[T], c: &C) -> (r: PrescanResult)
    requires
        all_taken(c, v@),
    ensures
        forall|le: spec_fn(T, T) -> bool| #[trigger] c.follows(le) ==> prescanned(le, v@, r),
{
    let n: usize = v.len();
    let ghost s = v@;
    let mut descents: usize = 0;
    let mut ascents: usize = 0;
    let mut i: usize = 1;
    while i < n
        invariant
            1 <= i,
            n > 0 ==> i <= n,
            n == 0 ==> i == 1,
            n == s.len(),
            s == v@,
            all_taken(c, s),
            descents < i,
            ascents < i,
            forall|le: spec_fn(T, T) -> bool| #[trigger] c.follows(le) ==> descents == descents_to(le, s, i as int) && ascents == ascents_to(le, s, i as int),
            forall|le: spec_fn(T, T) -> bool, k: int| #![trigger c.follows(le), hopeless(le, s, k)] c.follows(le) && 1 <= k < i ==> !hopeless(le, s, k),
        decreases n - i,
    {
        let o: i32 = c.order(&v[i - 1], &v[i]);
        if o > 0 {
            descents += 1;
        } else if o < 0 {
            ascents += 1;
        }
        proof {
            assert forall|le: spec_fn(T, T) -> bool| #[trigger] c.follows(le) implies descents == descents_to(le, s, i + 1) && ascents == ascents_to(le, s, i + 1) by {
                assert(descent(le, s, i as int) == (o > 0));
                assert(ascent(le, s, i as int) == (o < 0));
            }
        }
        if i % PRESCAN_BLOCK == 0 && ascents > 0 && descents > i / 8 + 64 {
            proof {
                assert forall|le: spec_fn(T, T) -> bool| #[trigger] c.follows(le) implies hopeless(le, s, i as int) by {}
            }
            return PrescanResult { shape: Shape::Unordered, descents: 0, ascents: 0 };
        }
        i += 1;
    }
    proof {
        assert forall|le: spec_fn(T, T) -> bool| #[trigger] c.follows(le) implies descents == descents_to(le, s, n as int) && ascents == ascents_to(le, s, n as int) && !exists|i: int|
            1 <= i < n && #[trigger] hopeless(le, s, i) by {
            assert(n == 0 ==> descents_to(le, s, n as int) == 0 && ascents_to(le, s, n as int) == 0);
        }
    }
    classify(n, descents, ascents)
}

/// A number that a slice holds as it is. One that is not a number stands nowhere
/// in the natural order of the others.
pub trait Plain: Key + Sized {
    /// Not a number.
    spec fn unordered(&self) -> bool;

    /// Whether it is not a number.
    fn is_unordered(&self) -> (r: bool)
        ensures
            r == self.unordered(),
    ;
}

impl Plain for i32 {
    open spec fn unordered(&self) -> bool {
        false
    }

    fn is_unordered(&self) -> (r: bool) {
        false
    }
}

impl Plain for u32 {
    open spec fn unordered(&self) -> bool {
        false
    }

    fn is_unordered(&self) -> (r: bool) {
        false
    }
}

impl Plain for i64 {
    open spec fn unordered(&self) -> bool {
        false
    }

    fn is_unordered(&self) -> (r: bool) {
        false
    }
}

impl Plain for u64 {
    open spec fn unordered(&self) -> bool {
        false
    }

    fn is_unordered(&self) -> (r: bool) {
        false
    }
}

impl Plain for F64Bits {
    open spec fn unordered(&self) -> bool {
        f64_nan(self.0)
    }

    fn is_unordered(&self) -> (r: bool) {
        self.0 % 0x8000_0000_0000_0000 > 0x7FF0_0000_0000_0000
    }
}

impl Plain for F32Bits {
    open spec fn unordered(&self) -> bool {
        f32_nan(self.0)
    }

    fn is_unordered(&self) -> (r: bool) {
        self.0 % 0x8000_0000 > 0x7F80_0000
    }
}

/// The prescan of a plain slice: a slice with anything in it that is not a number
/// counts as unordered.
pub fn prescan_plain<T: Plain>(v: &[T]) -> (r: PrescanResult)
    ensures
        (exists|i: int| 0 <= i < v@.len() && (#[trigger] v@[i]).unordered()) ==> r == (PrescanResult { shape: Shape::Unordered, descents: 0, ascents: 0 }),
        !(exists|i: int| 0 <= i < v@.len() && (#[trigger] v@[i]).unordered()) ==> prescanned(by_leaves(|x: T| x.leaves()), v@, r),
{
    let mut i: usize = 0;
    while i < v.len()
        invariant
            i <= v@.len(),
            forall|k: int| 0 <= k < i ==> !(#[trigger] v@[k]).unordered(),
        decreases v@.len() - i,
    {
        if v[i].is_unordered() {
            return PrescanResult { shape: Shape::Unordered, descents: 0, ascents: 0 };
        }
        i += 1;
    }
    assert(Identity.follows(by_leaves(|x: T| x.leaves())));
    prescan(v, &Identity)
}

// ---- the small sort ------------------------------------------------------------------------------

/// Insertion sort of the elements by their order; for at most `SMALL_SORT` of
/// them, without memory.
pub fn small_sort<T, C: Compare<T>>(v: &mut [T], c: &C)
    requires
        old(v)@.len() <= SMALL_SORT,
        all_taken(c, old(v)@),
    ensures
        ordered_by(c, old(v)@, final(v)@),
{
    let n: usize = v.len();
    let ghost s = v@;
    let mut room: [u32; 32] = [0u32; 32];
    let mut i: usize = 0;
    while i < n
        invariant
            i <= n <= 32,
            forall|k: int| 0 <= k < i ==> room[k] == k as u32,
        decreases n - i,
    {
        room[i] = i as u32;
        i += 1;
    }
    let all: &mut [u32] = &mut room;
    let (idx, rest) = all.split_at_mut(n);
    {
        let o = IndexOrder { v: &*v, c };
        proof {
            assert(idx@ =~= numbers_to(n as nat));
            assert forall|k: int| 0 <= k < idx@.len() implies o.accepts(#[trigger] idx@[k]) by {}
        }
        let mut quiet: NoHooks = NoHooks;
        insertion_sort_by(idx, &o, &mut quiet);
        proof {
            lemma_index_sorted(&o, idx@);
        }
    }
    proof {
        lemma_permutation_len(iota(s.len()), ints(idx@));
        lemma_lists_sorted(c, s, idx@);
    }
    permute_cycles(v, idx);
}

/// [`small_sort`] by the keys of a projection. Each key is obtained once, where
/// there is memory to keep it.
fn small_sort_by_key<T, P: Proj<T>, M: Alloc>(v: &mut [T], proj: &P, mem: &mut M)
    requires
        old(v)@.len() <= SMALL_SORT,
        forall|i: int| 0 <= i < old(v)@.len() ==> proj.asks(#[trigger] old(v)@[i]),
    ensures
        ordered_by(proj, old(v)@, final(v)@),
        final(mem).refusals() >= old(mem).refusals(),
        final(mem).held() == old(mem).held(),
{
    let n: usize = v.len();
    let ghost s = v@;
    proof {
        proj.gives_follows();
        assert(all_taken(proj, s));
    }
    if n < 2 {
        small_sort(v, proj);
        return;
    }
    let st: P::Store = match proj.store(&*v, mem) {
        Ok(st) => st,
        Err(_) => {
            small_sort(v, proj);
            return;
        },
    };
    let mut room: [u32; 32] = [0u32; 32];
    let mut i: usize = 0;
    while i < n
        invariant
            i <= n <= 32,
            forall|k: int| 0 <= k < i ==> room[k] == k as u32,
        decreases n - i,
    {
        room[i] = i as u32;
        i += 1;
    }
    let all: &mut [u32] = &mut room;
    let (idx, rest) = all.split_at_mut(n);
    {
        let o = StoredOrder { v: &*v, st: &st, proj };
        proof {
            assert(idx@ =~= numbers_to(n as nat));
            assert forall|k: int| 0 <= k < idx@.len() implies o.accepts(#[trigger] idx@[k]) by {}
        }
        let mut quiet: NoHooks = NoHooks;
        insertion_sort_by(idx, &o, &mut quiet);
        proof {
            let by_index = IndexOrder { v: o.v, c: proj };
            assert forall|le: spec_fn(u32, u32) -> bool| #[trigger] Less::<u32>::follows(&by_index, le) implies stable_sort_of(le, numbers_to(n as nat), idx@) by {
                assert(o.follows(le));
            }
            lemma_index_sorted(&by_index, idx@);
        }
    }
    P::give_back(st, n, mem);
    proof {
        lemma_permutation_len(iota(s.len()), ints(idx@));
        lemma_lists_sorted(proj, s, idx@);
    }
    permute_cycles(v, idx);
}

// ---- the element route ---------------------------------------------------------------------------

/// The displaced-element route can take the elements: there are few enough of
/// them to number, and few enough are displaced.
pub open spec fn route_takes<T>(le: spec_fn(T, T) -> bool, s: Seq<T>) -> bool {
    s.len() <= 0xFFFF_FFFF && few_displaced(le, s)
}

proof fn lemma_pops_index<T>(le: spec_fn(T, T) -> bool, s: Seq<T>, kp: Seq<int>, i: int, j: int)
    requires
        s.len() <= 0xFFFF_FFFF,
        0 <= i < s.len(),
        1 <= j,
        forall|k: int| 0 <= k < kp.len() ==> 0 <= #[trigger] kp[k] < s.len(),
    ensures
        pops_from(index_le(le, s), picked(numbers_to(s.len()), kp), numbers_to(s.len())[i], j) == pops_from(le, picked(s, kp), s[i], j),
    decreases MAX_POP + 1 - j,
{
    if j <= MAX_POP {
        lemma_pops_index(le, s, kp, i, j + 1);
        if j < kp.len() {
            assert(0 <= kp[kp.len() - 1 - j] < s.len());
        }
    }
}

/// The scan of the positions goes as the scan of the elements.
proof fn lemma_scan_index<T>(le: spec_fn(T, T) -> bool, s: Seq<T>, kp: Seq<int>, top: int, i: int)
    requires
        s.len() <= 0xFFFF_FFFF,
        0 <= i,
        forall|k: int| 0 <= k < kp.len() ==> 0 <= #[trigger] kp[k] < s.len(),
    ensures
        scan_ends(index_le(le, s), numbers_to(s.len()), kp, top, i) == scan_ends(le, s, kp, top, i),
    decreases s.len() - i,
{
    reveal(scan_ends);
    if i < s.len() {
        lemma_scan_index(le, s, kp.push(i), top, i + 1);
        if kp.len() > 0 {
            assert(0 <= kp.last() < s.len());
            lemma_pops_index(le, s, kp, i, 1);
            lemma_pops_range(le, picked(s, kp), s[i], 1);
            let pops = pops_from(le, picked(s, kp), s[i], 1);
            let high = if kp.len() > top {
                kp.len() as int
            } else {
                top
            };
            lemma_scan_index(le, s, kp, top, i + 1);
            lemma_scan_index(le, s, kp.take(kp.len() - pops).push(i), high, i + 1);
        }
    }
}

/// Runs the displaced-element route on the elements. True when the slice is
/// sorted; false, with the slice untouched, when the route gave up.
pub fn sort_displaced_elements<T, C: Compare<T>, M: Alloc>(v: &mut [T], c: &C, mem: &mut M) -> (r: bool)
    requires
        all_taken(c, old(v)@),
    ensures
        r ==> ordered_by(c, old(v)@, final(v)@),
        !r ==> final(v)@ == old(v)@,
        forall|le: spec_fn(T, T) -> bool| #[trigger] c.follows(le) && r ==> route_takes(le, old(v)@),
        forall|le: spec_fn(T, T) -> bool| #[trigger] c.follows(le) && !r && final(mem).refusals() == old(mem).refusals() ==> !route_takes(le, old(v)@),
        final(mem).refusals() >= old(mem).refusals(),
        final(mem).held() == old(mem).held(),
{
    let n: usize = v.len();
    let ghost s = v@;
    if n > 0xFFFF_FFFF {
        return false;
    }
    let mut idx: Vec<u32> = match numbers(n, mem) {
        Ok(x) => x,
        Err(_) => {
            return false;
        },
    };
    assert(idx@ =~= numbers_to(n as nat));
    let done: bool;
    {
        let o = IndexOrder { v: &*v, c };
        proof {
            assert forall|k: int| 0 <= k < idx@.len() implies o.accepts(#[trigger] idx@[k]) by {}
        }
        let mut quiet: NoHooks = NoHooks;
        done = match sort_displaced(&mut idx, &o, mem, &mut quiet) {
            Ok(d) => d,
            Err(_) => false,
        };
        proof {
            assert forall|le: spec_fn(T, T) -> bool| #[trigger] c.follows(le) implies Less::<u32>::follows(&o, index_le(le, s)) && few_displaced(index_le(le, s), numbers_to(s.len())) == few_displaced(le, s) by {
                assert(o.c.follows(le) && index_le(le, s) == index_le(le, o.v@));
                lemma_scan_index(le, s, Seq::empty(), 0, 0);
            }
            if done {
                lemma_index_sorted(&o, idx@);
            }
        }
    }
    if done {
        proof {
            lemma_permutation_len(iota(s.len()), ints(idx@));
            lemma_lists_sorted(c, s, idx@);
        }
        permute_cycles(v, &mut idx);
    }
    free_array(mem, idx, n);
    done
}

// ---- the record sort -----------------------------------------------------------------------------

/// The records of the elements: each stands for a key of its element.
pub open spec fn records_of<'a, T, P: Proj<T>, R: Record<'a>>(proj: &P, s: Seq<T>, recs: Seq<R>, ls: Seq<Seq<LeafModel>>) -> bool {
    &&& recs.len() == ls.len() == s.len()
    &&& forall|i: int| 0 <= i < s.len() ==> (#[trigger] recs[i]).place() == i && recs[i].chunks() == R::chunks_for(ls[i])
    &&& forall|i: int| 0 <= i < s.len() ==> shaped(#[trigger] ls[i], P::K::parts()) && all_short(ls[i])
    &&& forall|f: spec_fn(T) -> Seq<LeafModel>, i: int| #![trigger proj.gives(f), ls[i]] proj.gives(f) && 0 <= i < s.len() ==> ls[i] == f(s[i])
}

/// What the records remember to restore the elements.
pub open spec fn restorable<'a, T, P: Proj<T>, R: Record<'a>>(s: Seq<T>, recs: Seq<R>, ls: Seq<Seq<LeafModel>>) -> bool {
    forall|i: int| 0 <= i < s.len() ==> P::stands(#[trigger] s[i], ls[i], recs[i].kept_word())
}

/// Every key with these leaves can be represented.
pub open spec fn representable(parts: Seq<Part>) -> bool {
    forall|l: Seq<LeafModel>| #[trigger] shaped(l, parts) ==> all_short(l)
}

/// The records of a slice.
pub struct Built<R> {
    /// The records.
    pub recs: Vec<R>,
    /// They remember what the elements are restored from.
    pub exact: bool,
}

/// Builds the records. `None` if a key cannot be represented.
fn build_records<'a, T, P: Proj<T>, R: Record<'a>, M: Alloc>(v: &'a [T], proj: &P, st: &'a P::Store, mem: &mut M) -> (r: Result<Option<(Built<R>, Ghost<Seq<Seq<LeafModel>>>)>, AllocError>) where P::K: 'a
    requires
        v@.len() <= 0xFFFF_FFFF,
        R::suits(P::K::parts()),
        forall|i: int| 0 <= i < v@.len() ==> proj.asks(#[trigger] v@[i]),
        proj.serves(v@, *st),
    ensures
        r matches Ok(Some(b)) ==> records_of(proj, v@, b.0.recs@, b.1@) && (b.0.exact ==> restorable::<T, P, R>(v@, b.0.recs@, b.1@)),
        r matches Ok(None) ==> !representable(P::K::parts()),
        r is Ok ==> final(mem).refusals() == old(mem).refusals(),
        r is Err ==> final(mem).refusals() > old(mem).refusals(),
        final(mem).held() == old(mem).held() + if r matches Ok(Some(b)) {
            space::<R>(v@.len())
        } else {
            0
        },
{
    let n: usize = v.len();
    let mut recs: Vec<R> = match alloc_array(mem, n) {
        Ok(x) => x,
        Err(e) => {
            return Err(e);
        },
    };
    let ghost mut ls: Seq<Seq<LeafModel>> = Seq::empty();
    let mut exact = true;
    let mut i: usize = 0;
    while i < n
        invariant
            i <= n == v@.len(),
            n <= 0xFFFF_FFFF,
            R::suits(P::K::parts()),
            forall|k: int| 0 <= k < v@.len() ==> proj.asks(#[trigger] v@[k]),
            proj.serves(v@, *st),
            recs@.len() == ls.len() == i,
            forall|k: int| 0 <= k < i ==> (#[trigger] recs@[k]).place() == k && recs@[k].chunks() == R::chunks_for(ls[k]),
            forall|k: int| 0 <= k < i ==> shaped(#[trigger] ls[k], P::K::parts()) && all_short(ls[k]),
            forall|f: spec_fn(T) -> Seq<LeafModel>, k: int| #![trigger proj.gives(f), ls[k]] proj.gives(f) && 0 <= k < i ==> ls[k] == f(v@[k]),
            exact ==> forall|k: int| 0 <= k < i ==> P::stands(#[trigger] v@[k], ls[k], recs@[k].kept_word()),
            mem.refusals() == old(mem).refusals(),
            mem.held() == old(mem).held() + space::<R>(n as nat),
        decreases n - i,
    {
        let k: &'a P::K = proj.key(v, st, i);
        proof {
            k.leaves_shaped();
        }
        match R::build(k, i as u32) {
            Some(rec) => {
                let mut rec: R = rec;
                let kept = rec.keep(k.spare());
                exact = exact && kept;
                proof {
                    ls = ls.push(k.leaves());
                }
                recs.push(rec);
            },
            None => {
                assert(shaped(k.leaves(), P::K::parts()) && !all_short(k.leaves()));
                free_array(mem, recs, n);
                return Ok(None);
            },
        }
        i += 1;
    }
    Ok(Some((Built { recs, exact }, Ghost(ls))))
}

/// Sorts records. The result stands in as much memory as the records did.
pub fn sort_built<R: Elem, M: Alloc>(recs: Vec<R>, mem: M) -> (r: (Option<Vec<R>>, M))
    requires
        space::<R>(recs@.len()) <= mem.held(),
    ensures
        r.0 matches Some(s) ==> stable_sort_of(elem_le::<R>(), recs@, s@),
        r.0 is None ==> r.1.refusals() > mem.refusals(),
        at_ease(recs@) ==> r.0 is Some && r.1.refusals() == mem.refusals() && r.1.asked() == mem.asked(),
        r.1.refusals() >= mem.refusals(),
        r.1.held() == mem.held() - if r.0 is None {
            space::<R>(recs@.len())
        } else {
            0
        },
{
    let ghost o = recs@;
    let n: usize = recs.len();
    let mut recs: Vec<R> = recs;
    let mut scratch: Scratch<R, M, NoHooks> = Scratch::new(mem, NoHooks, Machine::default());
    match brainsort_impl(&mut recs, &mut scratch, true, 0) {
        Ok(in_src) => {
            if in_src {
                let (mem, _) = scratch.release();
                (Some(recs), mem)
            } else {
                let mut out: Vec<R> = Vec::new();
                core::mem::swap(&mut out, &mut scratch.buf);
                let room: usize = out.len();
                out.truncate(n);
                proof {
                    lemma_no_space::<R>();
                }
                let (mem, _) = scratch.release();
                let mut mem: M = mem;
                free_array(&mut mem, recs, room);
                (Some(out), mem)
            }
        },
        Err(_) => {
            let (mem, _) = scratch.release();
            let mut mem: M = mem;
            free_array(&mut mem, recs, n);
            (None, mem)
        },
    }
}

/// Sorted records list the elements in the order of their stable sort.
proof fn lemma_records_list<'a, T, P: Proj<T>, R: Record<'a>>(proj: &P, s: Seq<T>, recs: Seq<R>, ls: Seq<Seq<LeafModel>>, out: Seq<R>, ix: Seq<u32>)
    requires
        s.len() <= 0xFFFF_FFFF,
        R::suits(P::K::parts()),
        records_of(proj, s, recs, ls),
        stable_sort_of(elem_le::<R>(), recs, out),
        ix.len() == out.len(),
        forall|k: int| 0 <= k < out.len() ==> #[trigger] ix[k] == out[k].place(),
    ensures
        lists_sorted(proj, s, ix),
        forall|k: int| 0 <= k < out.len() ==> (#[trigger] ix[k]) < s.len() && out[k] == recs[ix[k] as int],
{
    let n = s.len();
    let f = |r: R| r.place() as int;
    let re = elem_le::<R>();
    lemma_permutation_len(recs, out);
    lemma_map_permutation(recs, out, f);
    assert(recs.map_values(f) =~= iota(n));
    assert(out.map_values(f) =~= ints(ix));
    assert forall|k: int| 0 <= k < out.len() implies (#[trigger] ix[k]) < n && out[k] == recs[ix[k] as int] by {
        let i = lemma_permutation_member(out, recs, k);
        assert(recs[i].place() == i);
    }
    lemma_elem_le_total::<R>();
    proj.gives_follows();
    assert forall|le: spec_fn(T, T) -> bool| #[trigger] proj.follows(le) implies sorted(position_le(le, s), ints(ix)) by {
        let g = choose|g: spec_fn(T) -> Seq<LeafModel>| #[trigger] proj.gives(g) && le == by_leaves(g);
        let ple = position_le(le, s);
        let place = by_key(f);
        assert(sorted(place, recs)) by {
            assert forall|i: int, j: int| 0 <= i <= j < recs.len() implies place(#[trigger] recs[i], #[trigger] recs[j]) by {}
        }
        assert forall|i: int, j: int| 0 <= i <= j < ints(ix).len() implies ple(#[trigger] ints(ix)[i], #[trigger] ints(ix)[j]) by {
            let (p, q) = (ix[i] as int, ix[j] as int);
            assert(re(out[i], out[j]));
            assert(out[i] == recs[p] && out[j] == recs[q]);
            R::order_kept(ls[p], ls[q], P::K::parts());
            R::order_kept(ls[q], ls[p], P::K::parts());
            assert(ls[p] == g(s[p]) && ls[q] == g(s[q]));
            if le(s[q], s[p]) && i < j {
                assert(re(out[j], out[i]));
                let t = tied_with(re, out[i]);
                assert(re(out[i], out[i]));
                lemma_filter_sorted(place, recs, t);
                assert(class(re, recs, out[i]) == class(re, out, out[i]));
                lemma_filter_index(out, t, i);
                lemma_filter_index(out, t, j);
                lemma_filter_index_lt(out, t, i, j);
                assert(place(out[i], out[j]));
            }
        }
    }
}

/// The original indices of records.
fn places<'a, R: Record<'a>, M: Alloc>(recs: &Vec<R>, mem: &mut M) -> (r: Result<Vec<u32>, AllocError>)
    ensures
        r matches Ok(ix) ==> ix@.len() == recs@.len() && (forall|k: int| 0 <= k < recs@.len() ==> #[trigger] ix@[k] == recs@[k].place()) && final(mem).refusals() == old(
            mem,
        ).refusals(),
        r is Err ==> final(mem).refusals() > old(mem).refusals(),
        final(mem).held() == old(mem).held() + if r is Ok {
            space::<u32>(recs@.len())
        } else {
            0
        },
{
    let n: usize = recs.len();
    let mut ix: Vec<u32> = match alloc_array(mem, n) {
        Ok(x) => x,
        Err(e) => {
            return Err(e);
        },
    };
    let mut i: usize = 0;
    while i < n
        invariant
            i <= n == recs@.len(),
            ix@.len() == i,
            forall|k: int| 0 <= k < i ==> #[trigger] ix@[k] == recs@[k].place(),
            mem.refusals() == old(mem).refusals(),
        decreases n - i,
    {
        ix.push(recs[i].index());
        i += 1;
    }
    Ok(ix)
}

/// The order of the elements through records of type `R`. `None` if the keys
/// cannot be represented or the memory is not there.
fn list_records<'a, T, P: Proj<T>, R: Record<'a>, M: Alloc>(v: &'a [T], proj: &P, st: &'a P::Store, mem: M) -> (r: (Option<Vec<u32>>, M)) where P::K: 'a
    requires
        v@.len() <= 0xFFFF_FFFF,
        R::suits(P::K::parts()),
        forall|i: int| 0 <= i < v@.len() ==> proj.asks(#[trigger] v@[i]),
        proj.serves(v@, *st),
    ensures
        r.0 matches Some(ix) ==> lists_sorted(proj, v@, ix@) && ix@.len() == v@.len(),
        r.1.refusals() >= mem.refusals(),
        r.0 is None && representable(P::K::parts()) ==> r.1.refusals() > mem.refusals(),
        r.1.held() == mem.held() + if r.0 is Some {
            space::<u32>(v@.len())
        } else {
            0
        },
{
    let mut mem: M = mem;
    let (built, Ghost(ls)): (Built<R>, Ghost<Seq<Seq<LeafModel>>>) = match build_records(v, proj, st, &mut mem) {
        Ok(Some(b)) => b,
        _ => {
            return (None, mem);
        },
    };
    let recs: Vec<R> = built.recs;
    let ghost r0 = recs@;
    let (out, mem) = sort_built(recs, mem);
    let mut mem: M = mem;
    match out {
        Some(s) => {
            proof {
                lemma_permutation_len(r0, s@);
            }
            match places(&s, &mut mem) {
                Ok(ix) => {
                    proof {
                        lemma_records_list(proj, v@, r0, ls, s@, ix@);
                    }
                    let n: usize = s.len();
                    free_array(&mut mem, s, n);
                    (Some(ix), mem)
                },
                Err(_) => {
                    let n: usize = s.len();
                    free_array(&mut mem, s, n);
                    (None, mem)
                },
            }
        },
        None => (None, mem),
    }
}

/// The order of the elements by a computed key, through records of type `R`.
/// `None` if the keys cannot be represented or the memory is not there.
pub fn list_by_key<T, K: Key, F: Fn(&T) -> K, R: Elem, M: Alloc>(v: &[T], f: F, mem: M) -> (r: (Option<Vec<u32>>, M)) where R: for<'x> Record<'x>
    requires
        v@.len() <= 0xFFFF_FFFF,
        R::suits(K::parts()),
        forall|i: int| 0 <= i < v@.len() ==> call_requires(f, (&#[trigger] v@[i],)),
    ensures
        r.0 matches Some(ix) ==> ix@.len() == v@.len() && permutation(iota(v@.len()), ints(ix@)) && forall|k: spec_fn(T) -> Seq<LeafModel>|
            #[trigger] computes(f, k) ==> sorted(position_le(by_leaves(k), v@), ints(ix@)),
        r.1.refusals() >= mem.refusals(),
        r.0 is None && representable(K::parts()) ==> r.1.refusals() > mem.refusals(),
        r.1.held() == mem.held() + if r.0 is Some {
            space::<u32>(v@.len())
        } else {
            0
        },
{
    let proj: ByVal<F, K> = ByVal(f, core::marker::PhantomData);
    let mut mem: M = mem;
    proof {
        assert forall|i: int| 0 <= i < v@.len() implies proj.asks(#[trigger] v@[i]) by {}
    }
    let st = match proj.store(v, &mut mem) {
        Ok(x) => x,
        Err(_) => {
            return (None, mem);
        },
    };
    let mut r = list_records::<T, ByVal<F, K>, R, M>(v, &proj, &st, mem);
    <ByVal<F, K> as Proj<T>>::give_back(st, v.len(), &mut r.1);
    proof {
        assert forall|k: spec_fn(T) -> Seq<LeafModel>| #[trigger] computes(f, k) && r.0 is Some implies sorted(position_le(by_leaves(k), v@), ints(r.0->0@)) by {
            assert(proj.follows(by_leaves(k)));
        }
    }
    r
}

/// The elements of sorted records, where they can be given back. `None` where
/// one cannot, or the memory is not there.
fn restore_all<'a, T, P: Proj<T>, R: Record<'a>, M: Alloc>(out: &Vec<R>, mem: &mut M, Ghost(s): Ghost<Seq<T>>, Ghost(recs): Ghost<Seq<R>>, Ghost(ls): Ghost<Seq<Seq<LeafModel>>>, Ghost(ix): Ghost<Seq<u32>>) -> (r: Option<
    Vec<T>,
>)
    requires
        s.len() == recs.len() == ls.len() == ix.len() == out@.len(),
        restorable::<T, P, R>(s, recs, ls),
        forall|i: int| 0 <= i < s.len() ==> (#[trigger] recs[i]).chunks() == R::chunks_for(ls[i]),
        forall|i: int| 0 <= i < s.len() ==> R::chunks_for(#[trigger] ls[i]) == seq![packed(ls[i]) as u64],
        forall|i: int| 0 <= i < s.len() ==> shaped(#[trigger] ls[i], P::K::parts()),
        forall|k: int| 0 <= k < out@.len() ==> (#[trigger] ix[k]) < s.len() && out@[k] == recs[ix[k] as int],
        P::K::parts().len() == 1,
        !P::K::parts()[0].bytes,
        !P::K::parts()[0].desc,
    ensures
        r matches Some(x) ==> x@ == picked(s, ints(ix)),
        r is Some <==> final(mem).refusals() == old(mem).refusals() && (out@.len() == 0 || R::has_value() && P::restores()),
        final(mem).refusals() >= old(mem).refusals(),
        final(mem).held() == old(mem).held() + if r is Some {
            space::<T>(out@.len())
        } else {
            0
        },
{
    let n: usize = out.len();
    let mut fresh: Vec<T> = match alloc_array(mem, n) {
        Ok(x) => x,
        Err(_) => {
            return None;
        },
    };
    let mut i: usize = 0;
    while i < n
        invariant
            i <= n == out@.len(),
            s.len() == recs.len() == ls.len() == ix.len() == out@.len(),
            restorable::<T, P, R>(s, recs, ls),
            forall|i: int| 0 <= i < s.len() ==> (#[trigger] recs[i]).chunks() == R::chunks_for(ls[i]),
            forall|i: int| 0 <= i < s.len() ==> R::chunks_for(#[trigger] ls[i]) == seq![packed(ls[i]) as u64],
            forall|i: int| 0 <= i < s.len() ==> shaped(#[trigger] ls[i], P::K::parts()),
            forall|k: int| 0 <= k < out@.len() ==> (#[trigger] ix[k]) < s.len() && out@[k] == recs[ix[k] as int],
            P::K::parts().len() == 1,
            !P::K::parts()[0].bytes,
            !P::K::parts()[0].desc,
            fresh@.len() == i,
            forall|k: int| 0 <= k < i ==> #[trigger] fresh@[k] == s[ix[k] as int],
            i > 0 ==> R::has_value() && P::restores(),
            mem.refusals() == old(mem).refusals(),
            mem.held() == old(mem).held() + space::<T>(n as nat),
        decreases n - i,
    {
        match out[i].value() {
            Some(w) => {
                proof {
                    let p = ix[i as int] as int;
                    lemma_single_fixed(ls[p], P::K::parts());
                    assert(out@[i as int] == recs[p]);
                    assert(seq![w.0][0] == seq![packed(ls[p]) as u64][0]);
                    assert(P::stands(s[p], ls[p], recs[p].kept_word()));
                }
                match P::restore(w.0, w.1) {
                    Some(t) => {
                        fresh.push(t);
                    },
                    None => {
                        free_array(mem, fresh, n);
                        return None;
                    },
                }
            },
            None => {
                free_array(mem, fresh, n);
                return None;
            },
        }
        i += 1;
    }
    assert(fresh@ =~= picked(s, ints(ix)));
    Some(fresh)
}

/// A single ascending fixed leaf packs to its value.
proof fn lemma_single_fixed(l: Seq<LeafModel>, parts: Seq<Part>)
    requires
        shaped(l, parts),
        parts.len() == 1,
        !parts[0].bytes,
        !parts[0].desc,
    ensures
        l == one_fixed(parts[0].bits, packed(l) as u64),
{
    assert(part_of(l[0]) == parts[0]);
    assert(l.drop_last() =~= Seq::<LeafModel>::empty());
    assert(packed(l.drop_last()) == 0);
    let (a, w) = (packed(l.drop_last()), vstd::arithmetic::power2::pow2(leaf_bits(l.last())) as int);
    assert(a * w == 0) by (nonlinear_arith)
        requires
            a == 0,
    ;
    assert(l =~= one_fixed(parts[0].bits, packed(l) as u64));
}

/// Sorts `v` by the projection through fixed-key records of type `R`. Where the
/// elements are the keys and the keys can be given back, the sorted keys are
/// written back; the elements are permuted otherwise. False, with the slice
/// untouched, if the memory is not there.
fn sort_fixed_records<T, P: Proj<T>, R: Elem, M: Alloc>(v: &mut [T], proj: &P, mem: M) -> (r: (bool, M)) where R: for<'x> Record<'x>
    requires
        old(v)@.len() <= 0xFFFF_FFFF,
        R::suits(P::K::parts()),
        1 <= P::K::parts().len() <= MAX_PARTS,
        forall|l: Seq<LeafModel>| #[trigger] R::chunks_for(l) == seq![packed(l) as u64],
        forall|i: int| 0 <= i < old(v)@.len() ==> proj.asks(#[trigger] old(v)@[i]),
    ensures
        r.0 ==> ordered_by(proj, old(v)@, final(v)@),
        !r.0 ==> final(v)@ == old(v)@,
        !r.0 && representable(P::K::parts()) ==> r.1.refusals() > mem.refusals(),
        r.1.refusals() >= mem.refusals(),
        r.1.held() == mem.held(),
{
    let ghost s = v@;
    let n: usize = v.len();
    let mut mem: M = mem;
    let st: P::Store = match proj.store(&*v, &mut mem) {
        Ok(x) => x,
        Err(_) => {
            return (false, mem);
        },
    };
    let (built, Ghost(ls)): (Built<R>, Ghost<Seq<Seq<LeafModel>>>) = match build_records(&*v, proj, &st, &mut mem) {
        Ok(Some(b)) => b,
        _ => {
            P::give_back(st, n, &mut mem);
            return (false, mem);
        },
    };
    P::give_back(st, n, &mut mem);
    let exact = built.exact;
    let ghost r0 = built.recs@;
    let (sorted_recs, mem) = sort_built(built.recs, mem);
    let mut mem: M = mem;
    let out: Vec<R> = match sorted_recs {
        Some(x) => x,
        None => {
            return (false, mem);
        },
    };
    let mut ix: Vec<u32> = match places(&out, &mut mem) {
        Ok(x) => x,
        Err(_) => {
            free_array(&mut mem, out, n);
            return (false, mem);
        },
    };
    proof {
        lemma_permutation_len(r0, out@);
        lemma_records_list(proj, s, r0, ls, out@, ix@);
        lemma_lists_sorted(proj, s, ix@);
    }
    let shape: crate::shape::Shape = P::K::shape();
    let first: Part = shape.part(0);
    proof {
        assert(shape.parts@.take(P::K::parts().len() as int)[0] == P::K::parts()[0]);
    }
    if exact && shape.n == 1 && !first.bytes && !first.desc {
        let fresh: Option<Vec<T>> = restore_all::<T, P, R, M>(&out, &mut mem, Ghost(s), Ghost(r0), Ghost(ls), Ghost(ix@));
        if let Some(x) = fresh {
            let x: Vec<T> = write_back(v, x);
            free_array(&mut mem, x, n);
            free_array(&mut mem, ix, n);
            free_array(&mut mem, out, n);
            return (true, mem);
        }
    }
    free_array(&mut mem, out, n);
    permute_cycles(v, &mut ix);
    free_array(&mut mem, ix, n);
    (true, mem)
}

/// Replaces the elements; returns the old ones.
fn write_back<T>(v: &mut [T], x: Vec<T>) -> (r: Vec<T>)
    requires
        old(v)@.len() == x@.len(),
    ensures
        final(v)@ == x@,
        r@ == old(v)@,
{
    let n: usize = v.len();
    let mut x: Vec<T> = x;
    let ghost want = x@;
    let ghost was = v@;
    let mut i: usize = 0;
    while i < n
        invariant
            i <= n == v@.len() == x@.len() == want.len() == was.len(),
            forall|k: int| 0 <= k < i ==> x@[k] == was[k],
            forall|k: int| i <= k < n ==> v@[k] == was[k],
            forall|k: int| 0 <= k < i ==> v@[k] == want[k],
            forall|k: int| i <= k < n ==> x@[k] == want[k],
        decreases n - i,
    {
        core::mem::swap(&mut v[i], &mut x[i]);
        i += 1;
    }
    assert(v@ =~= want);
    assert(x@ =~= was);
    x
}

/// Permutes the elements into the listed order and gives the list back.
pub fn apply_list<T, C: Compare<T>, M: Alloc>(v: &mut [T], ix: Vec<u32>, c: &C, mem: &mut M)
    requires
        space::<u32>(ix@.len()) <= old(mem).held(),
        old(v)@.len() == ix@.len() <= 0xFFFF_FFFF,
        lists_sorted(c, old(v)@, ix@),
    ensures
        ordered_by(c, old(v)@, final(v)@),
        final(mem).refusals() == old(mem).refusals(),
        final(mem).held() == old(mem).held() - space::<u32>(ix@.len()),
{
    let mut ix: Vec<u32> = ix;
    proof {
        lemma_lists_sorted(c, v@, ix@);
    }
    permute_cycles(v, &mut ix);
    free_array(mem, ix, v.len());
}

/// Which record type holds a key of the given shape.
#[derive(Clone, Copy, PartialEq, Eq, Debug, Structural)]
pub enum RecordKind {
    /// `Rec32`.
    Fixed32,
    /// `Rec64`.
    Fixed64,
    /// `StrRec`, ascending.
    Text,
    /// `StrRec`, descending.
    TextDesc,
    /// `CompRec`.
    Composite,
}

/// Which record type holds a key with the given leaves.
pub open spec fn kind_for(parts: Seq<Part>) -> RecordKind {
    if none_bytes(parts) && width_sum(parts) <= 32 {
        RecordKind::Fixed32
    } else if none_bytes(parts) && width_sum(parts) <= 64 {
        RecordKind::Fixed64
    } else if parts.len() == 1 && parts[0] == (Part { bytes: true, bits: 0, desc: false }) {
        RecordKind::Text
    } else if parts.len() == 1 && parts[0] == (Part { bytes: true, bits: 0, desc: true }) {
        RecordKind::TextDesc
    } else {
        RecordKind::Composite
    }
}

/// Picks the record type from the shape.
pub fn pick_record(s: &crate::shape::Shape) -> (r: RecordKind)
    requires
        s.n <= MAX_PARTS,
    ensures
        r == kind_for(s.leaves()),
{
    let fixed = s.all_fixed();
    let bits: u32 = s.total_bits();
    if fixed && bits <= 32 {
        return RecordKind::Fixed32;
    }
    if fixed && bits <= 64 {
        return RecordKind::Fixed64;
    }
    if s.n == 1 {
        let p: Part = s.part(0);
        assert(s.leaves()[0] == p);
        if p.bytes && p.bits == 0 {
            return if p.desc {
                RecordKind::TextDesc
            } else {
                RecordKind::Text
            };
        }
    }
    RecordKind::Composite
}

/// Sorts `v` by the projection through records. False, with the slice
/// untouched, if the keys cannot be represented or the memory is not there.
fn sort_records<T, P: Proj<T>, M: Alloc>(v: &mut [T], proj: &P, mem: M) -> (r: (bool, M))
    requires
        old(v)@.len() <= 0xFFFF_FFFF,
        1 <= P::K::parts().len() <= MAX_PARTS,
        forall|i: int| 0 <= i < old(v)@.len() ==> proj.asks(#[trigger] old(v)@[i]),
    ensures
        r.0 ==> ordered_by(proj, old(v)@, final(v)@),
        !r.0 ==> final(v)@ == old(v)@,
        !r.0 && representable(P::K::parts()) ==> r.1.refusals() > mem.refusals(),
        r.1.refusals() >= mem.refusals(),
        r.1.held() == mem.held(),
{
    let shape: crate::shape::Shape = P::K::shape();
    assert(shape.leaves() == P::K::parts());
    let kind: RecordKind = pick_record(&shape);
    match kind {
        RecordKind::Fixed32 => {
            return sort_fixed_records::<T, P, Rec32, M>(v, proj, mem);
        },
        RecordKind::Fixed64 => {
            return sort_fixed_records::<T, P, Rec64, M>(v, proj, mem);
        },
        _ => {},
    }
    let mut mem: M = mem;
    let st: P::Store = match proj.store(&*v, &mut mem) {
        Ok(x) => x,
        Err(_) => {
            return (false, mem);
        },
    };
    proof {
        if P::K::parts().len() == 1 {
            assert(P::K::parts() =~= seq![P::K::parts()[0]]);
        }
    }
    let (list, mem) = match kind {
        RecordKind::Text => list_records::<T, P, StrRec<false>, M>(&*v, proj, &st, mem),
        RecordKind::TextDesc => list_records::<T, P, StrRec<true>, M>(&*v, proj, &st, mem),
        _ => list_records::<T, P, CompRec<P::K>, M>(&*v, proj, &st, mem),
    };
    let mut mem: M = mem;
    P::give_back(st, v.len(), &mut mem);
    match list {
        Some(ix) => {
            apply_list(v, ix, proj, &mut mem);
            (true, mem)
        },
        None => (false, mem),
    }
}

// ---- the entry points ----------------------------------------------------------------------------

/// Sorts `v` by the projection.
pub fn sort_by_key_impl<T, P: Proj<T>, M: Alloc>(v: &mut [T], proj: &P, mem: M) -> (r: M)
    requires
        1 <= P::K::parts().len() <= MAX_PARTS,
        forall|i: int| 0 <= i < old(v)@.len() ==> proj.asks(#[trigger] old(v)@[i]),
        exists|f: spec_fn(T) -> Seq<LeafModel>| #[trigger] proj.gives(f),
    ensures
        ordered_by(proj, old(v)@, final(v)@),
        r.refusals() >= mem.refusals(),
        r.held() == mem.held(),
        forall|le: spec_fn(T, T) -> bool| #[trigger] proj.follows(le) && in_turn(le, old(v)@) && old(v)@.len() > SMALL_SORT ==> r.asked() == mem.asked(),
{
    let n: usize = v.len();
    let ghost s = v@;
    proof {
        proj.gives_follows();
        let f = choose|f: spec_fn(T) -> Seq<LeafModel>| #[trigger] proj.gives(f);
        assert(proj.follows(by_leaves(f)));
    }
    assert(all_taken(proj, s));
    let mut mem: M = mem;
    if n <= SMALL_SORT {
        small_sort_by_key(v, proj, &mut mem);
        return mem;
    }
    if sort_known_shape(v, proj, ELEMENT_ROUTE_MAX, &mut mem) {
        return mem;
    }
    if n <= 0xFFFF_FFFF {
        let (done, left) = sort_records(v, proj, mem);
        if done {
            return left;
        }
        mem = left;
    }
    std_sort_by(v, proj);
    mem
}

/// The input is recognised: it is sorted, reversed or, where the elements are
/// small, nearly sorted, and the counts do not prove it unordered on the way.
pub open spec fn recognised<T>(le: spec_fn(T, T) -> bool, s: Seq<T>, small: bool) -> bool {
    let n = s.len() as int;
    &&& !exists|i: int| 1 <= i < n && #[trigger] hopeless(le, s, i)
    &&& match shape_of(n, descents_to(le, s, n), ascents_to(le, s, n)) {
        Shape::Sorted => true,
        Shape::Reversed => true,
        Shape::NearlySorted => small && route_takes(le, s),
        Shape::Unordered => false,
    }
}

/// The elements are sorted, or none goes after the one before it.
pub open spec fn in_turn<T>(le: spec_fn(T, T) -> bool, s: Seq<T>) -> bool {
    sorted(le, s) || ascents_to(le, s, s.len() as int) == 0
}

/// Sorted and reversed input is recognised.
proof fn lemma_in_turn<T>(le: spec_fn(T, T) -> bool, s: Seq<T>)
    requires
        in_turn(le, s),
    ensures
        !exists|i: int| 1 <= i < s.len() && #[trigger] hopeless(le, s, i),
        descents_to(le, s, s.len() as int) == 0 || ascents_to(le, s, s.len() as int) == 0,
{
    let n = s.len() as int;
    if sorted(le, s) {
        lemma_sorted_no_descents(le, s, n);
    }
    assert forall|i: int| 1 <= i < n implies !#[trigger] hopeless(le, s, i) by {
        lemma_counts_grow(le, s, i + 1, n);
    }
}

/// Sorts input that is recognised as sorted, reversed or, where the elements are
/// of at most `most` bytes, nearly sorted. False, with the slice untouched, for
/// any other.
pub fn sort_known_shape<T, C: Compare<T>, M: Alloc>(v: &mut [T], c: &C, most: usize, mem: &mut M) -> (r: bool)
    requires
        old(v)@.len() > 0,
        all_taken(c, old(v)@),
    ensures
        r ==> ordered_by(c, old(v)@, final(v)@),
        !r ==> final(v)@ == old(v)@,
        forall|le: spec_fn(T, T) -> bool| #[trigger] c.follows(le) && r ==> recognised(le, old(v)@, vstd::layout::size_of::<T>() <= most),
        forall|le: spec_fn(T, T) -> bool|
            #[trigger] c.follows(le) && !r && final(mem).refusals() == old(mem).refusals() ==> !recognised(le, old(v)@, vstd::layout::size_of::<T>() <= most),
        forall|le: spec_fn(T, T) -> bool| #[trigger] c.follows(le) && in_turn(le, old(v)@) ==> r && *final(mem) == *old(mem),
        final(mem).refusals() >= old(mem).refusals(),
        final(mem).held() == old(mem).held(),
{
    let ghost s = v@;
    let found: PrescanResult = prescan(&*v, c);
    proof {
        assert forall|le: spec_fn(T, T) -> bool| #[trigger] c.follows(le) implies prescanned(le, s, found) by {}
        assert forall|le: spec_fn(T, T) -> bool| #[trigger] c.follows(le) && in_turn(le, s) implies found.shape == Shape::Sorted || found.shape == Shape::Reversed by {
            lemma_in_turn(le, s);
            assert(prescanned(le, s, found));
        }
    }
    match found.shape {
        Shape::Sorted => {
            proof {
                assert forall|le: spec_fn(T, T) -> bool| #[trigger] c.follows(le) implies stable_sort_of(le, s, v@) by {
                    c.follows_total(le);
                    lemma_no_descents(le, s, s.len() as int);
                    assert(s.take(s.len() as int) =~= s);
                }
            }
            true
        },
        Shape::Reversed => {
            let mut quiet: NoHooks = NoHooks;
            reverse_stable(v, found.descents, c, &mut quiet);
            true
        },
        Shape::NearlySorted => {
            core::mem::size_of::<T>() <= most && sort_displaced_elements(v, c, mem)
        },
        Shape::Unordered => false,
    }
}

/// The comparison sort: long natural runs are merged, anything else is the
/// standard library's stable sort. Elements over `ELEMENT_ROUTE_MAX` bytes are
/// sorted through their positions and moved once.
pub fn comparison_sort<T, C: Compare<T>, M: Alloc>(v: &mut [T], c: &C, mem: &mut M)
    requires
        all_taken(c, old(v)@),
        is_order(c),
    ensures
        ordered_by(c, old(v)@, final(v)@),
        final(mem).refusals() >= old(mem).refusals(),
        final(mem).held() == old(mem).held(),
{
    let n: usize = v.len();
    if n <= 0xFFFF_FFFF {
        if let Some(idx) = sort_by_indices(&*v, c, core::mem::size_of::<T>() > ELEMENT_ROUTE_MAX, mem) {
            apply_list(v, idx, c, mem);
            return;
        }
    }
    std_sort_by(v, c);
}

/// The positions in the order of the stable sort: of an input made of long
/// natural runs and, where `always` is set, of any other. `None` otherwise, and
/// where the memory is not there.
pub fn sort_by_indices<T, C: Compare<T>, M: Alloc>(v: &[T], c: &C, always: bool, mem: &mut M) -> (r: Option<Vec<u32>>)
    requires
        v@.len() <= 0xFFFF_FFFF,
        all_taken(c, v@),
        is_order(c),
    ensures
        r matches Some(ix) ==> lists_sorted(c, v@, ix@) && ix@.len() == v@.len(),
        final(mem).refusals() >= old(mem).refusals(),
        final(mem).refusals() == old(mem).refusals() && always ==> r is Some,
        final(mem).held() == old(mem).held() + if r is Some {
            space::<u32>(v@.len())
        } else {
            0
        },
{
    let n: usize = v.len();
    let mut idx: Vec<u32> = match numbers(n, mem) {
        Ok(x) => x,
        Err(_) => {
            return None;
        },
    };
    assert(idx@ =~= numbers_to(n as nat));
    let ghost ids = idx@;
    let o = IndexOrder { v, c };
    proof {
        assert forall|k: int| 0 <= k < idx@.len() implies Less::<u32>::accepts(&o, #[trigger] idx@[k]) by {}
    }
    let done = merge_natural_runs(&mut idx, &o, mem);
    proof {
        lemma_permutation_len(ids, idx@);
    }
    if done {
        proof {
            lemma_index_sorted(&o, idx@);
        }
        return Some(idx);
    }
    if !always {
        free_array(mem, idx, n);
        return None;
    }
    let ghost before = idx@;
    proof {
        let le = choose|le: spec_fn(T, T) -> bool| #[trigger] c.follows(le);
        assert(o.c.follows(le) && index_le(le, v@) == index_le(le, o.v@));
        assert(Less::<u32>::follows(&o, index_le(le, v@)));
        assert(Compare::<u32>::follows(&o, index_le(le, v@)));
        assert forall|i: int, j: int| 0 <= i < idx@.len() && 0 <= j < idx@.len() implies Compare::<u32>::takes(&o, #[trigger] idx@[i], #[trigger] idx@[j]) by {
            let a = lemma_permutation_member(idx@, ids, i);
            let b = lemma_permutation_member(idx@, ids, j);
        }
    }
    std_sort_by(&mut idx, &o);
    proof {
        lemma_permutation_len(ids, idx@);
        assert forall|le: spec_fn(u32, u32) -> bool| #[trigger] Less::<u32>::follows(&o, le) implies stable_sort_of(le, ids, idx@) by {
            assert(Compare::<u32>::follows(&o, le));
            lemma_stable_trans(le, ids, before, idx@);
        }
        lemma_index_sorted(&o, idx@);
    }
    Some(idx)
}

/// Sorts `v` by a comparison: sorted, reversed and nearly sorted input is
/// handled as the key sorts do, everything else by the comparison sort.
pub fn sort_by_impl<T, C: Compare<T>, M: Alloc>(v: &mut [T], c: &C, mem: M) -> (r: M)
    requires
        all_taken(c, old(v)@),
        is_order(c),
    ensures
        ordered_by(c, old(v)@, final(v)@),
        r.refusals() >= mem.refusals(),
        r.held() == mem.held(),
        forall|le: spec_fn(T, T) -> bool| #[trigger] c.follows(le) && in_turn(le, old(v)@) ==> r.asked() == mem.asked(),
{
    let n: usize = v.len();
    let mut mem: M = mem;
    if n <= SMALL_SORT {
        small_sort(v, c);
        return mem;
    }
    if sort_known_shape(v, c, COMPARED_ROUTE_MAX, &mut mem) {
        return mem;
    }
    comparison_sort(v, c, &mut mem);
    mem
}

/// Sorts `v` by a function that answers with a number.
pub fn sort_by_sign<T, F: Fn(&T, &T) -> i32, M: Alloc>(v: &mut [T], f: F, mem: M)
    requires
        forall|i: int, j: int| 0 <= i < old(v)@.len() && 0 <= j < old(v)@.len() ==> call_requires(f, (&#[trigger] old(v)@[i], &#[trigger] old(v)@[j])),
        exists|le: spec_fn(T, T) -> bool| #[trigger] sign_follows(f, le),
    ensures
        forall|le: spec_fn(T, T) -> bool| #[trigger] sign_follows(f, le) ==> stable_sort_of(le, old(v)@, final(v)@),
{
    let c = BySign(f);
    let ghost s = v@;
    proof {
        let le = choose|le: spec_fn(T, T) -> bool| #[trigger] sign_follows(f, le);
        assert(c.follows(le));
        assert forall|i: int, j: int| 0 <= i < s.len() && 0 <= j < s.len() implies c.takes(#[trigger] s[i], #[trigger] s[j]) by {}
    }
    let _ = sort_by_impl(v, &c, mem);
    proof {
        assert forall|le: spec_fn(T, T) -> bool| #[trigger] sign_follows(f, le) implies stable_sort_of(le, s, v@) by {
            assert(c.follows(le));
        }
    }
}

} // verus!
