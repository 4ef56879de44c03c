//! The algorithm.
//!
//! One linear scout pass over the keys computes the varying-bit mask, the
//! number of descents and ascents, and the monotone runs while there are at
//! most four. That picks the route: sorted (nothing to do), reversed (reverse
//! in place, tie groups restored), at most four runs (merge pairwise), few
//! descents (the displaced-element route), or the radix route. For chunked
//! keys (strings) groups of elements that tie on a chunk are sorted on the next
//! chunk, with the same route selection per group. Stable, exact.
use crate::algorithm::displaced::{displaced_end, sort_displaced};
use crate::algorithm::exec::{chunk_key, chunk_ready, chunk_sorted};
use crate::algorithm::monotone::{reverse_tally, stable_reverse};
use crate::algorithm::radix_route::{
    lemma_chunk_ready_permutation, lemma_next_chunk, radix_route, route_end, Routed,
};
use crate::algorithm::runs::{few_runs_tally, sort_few_runs};
use crate::algorithm::scout::{
    ascents_to, descents_to, least_scanned, lemma_no_commit, lemma_no_descents,
    lemma_sorted_no_descents, runs_to, scanned, scout, scout_mask, scout_tally, stops_at,
    ScoutResult,
};
use crate::cpu::Machine;
use crate::less::{insertion_tally, order_of, tells_order, Less, Natural};
use crate::mergesort::{halves_tally, merge_sort};
use crate::order::{
    by_key, lemma_permutation_add, lemma_permutation_len, lemma_permutation_member,
    lemma_stable_add, lemma_stable_trans, permutation, sorted, stable, stable_sort_of,
};
use crate::view::{
    after_copies, agree_below, asks_for, books, elem_le, gained, give_array, given, goes_down,
    insertion_sort, keeps_counts, keeps_record, lemma_elem_le_total, lemma_elem_tied,
    lemma_lex_agree, lemma_no_space, lemma_record, lex_le, lex_le_from, note_key, space,
    take_filled, taken, too_large, Alloc, AllocError, Books, Elem, Hooks, Note, RadixKey, Stat,
};
use vstd::arithmetic::logarithm::{lemma_log0, lemma_log_is_ordered, lemma_log_nonnegative, lemma_log_s, log};
use vstd::prelude::*;

pub mod dict;
pub mod displaced;
pub mod exec;
pub mod laws;
pub mod level;
pub mod monotone;
pub mod partition;
pub mod plan;
pub mod radix_route;
pub mod runs;
pub mod scout;

verus! {

/// Below this: insertion sort.
pub const INSERTION_MAX: usize = 32;

/// The radix route splits into two parts from this size on.
pub const SPLIT_MIN: usize = 1024;

/// The run route: at most two merge levels.
pub const MAX_RUNS: usize = 4;

/// The displaced route: how far back an outlier is looked for.
pub const MAX_POP: usize = 4;

/// The displaced route: positions of the top kept elements.
pub const RING: usize = 256;

/// Scout: how often the early-commit test runs.
pub const COMMIT_BLOCK: usize = 1024;

/// The radix route: pivot sample size (at most).
pub const SAMPLE: usize = 512;

/// What the routes work with beside the elements: the memory, the telemetry,
/// the count tables and the machine.
pub struct Tools<M, H> {
    /// The memory.
    pub mem: M,
    /// The telemetry.
    pub hooks: H,
    /// The reusable count tables.
    pub tables: Vec<u32>,
    /// The machine.
    pub machine: Machine,
}

/// Where the routes stand: what is on record, the entries of the count tables, and
/// the books of the memory.
pub struct Track<L> {
    /// What is on record.
    pub tally: L,
    /// The entries of the count tables.
    pub tables: nat,
    /// The books of the memory.
    pub books: Books,
}

/// Where the routes stand, with the elements that the buffer has room for.
pub struct Trail<L> {
    /// Where the routes stand.
    pub track: Track<L>,
    /// The elements that the buffer has room for.
    pub buf: nat,
}

/// Where the routes stand.
pub open spec fn track<M: Alloc, H: Hooks>(tools: Tools<M, H>) -> Track<H::Tally> {
    Track { tally: tools.hooks.tally(), tables: tools.tables@.len(), books: books(tools.mem) }
}

/// Where the routes stand, with the buffer.
pub open spec fn trail<T, M: Alloc, H: Hooks>(scratch: Scratch<T, M, H>) -> Trail<H::Tally> {
    Trail { track: track(scratch.tools), buf: scratch.buf@.len() }
}

/// Another record.
pub open spec fn retold<L>(t: Track<L>, tally: L) -> Track<L> {
    Track { tally, tables: t.tables, books: t.books }
}

/// Another record, with the buffer.
pub open spec fn retold_trail<L>(t: Trail<L>, tally: L) -> Trail<L> {
    Trail { track: retold(t.track, tally), buf: t.buf }
}

/// Count tables of at least `entries` entries are there.
pub open spec fn tables_for<L>(t: Track<L>, entries: nat) -> Track<L> {
    if t.tables >= entries {
        t
    } else {
        Track { tally: t.tally, tables: entries, books: taken::<u32>(given::<u32>(t.books, t.tables), entries) }
    }
}

/// A buffer of at least `k` elements is there.
pub open spec fn buffer_for<T, L>(t: Trail<L>, k: nat) -> Trail<L> {
    if t.buf >= k {
        t
    } else {
        Trail {
            track: Track { tally: t.track.tally, tables: t.track.tables, books: taken::<T>(given::<T>(t.track.books, t.buf), k) },
            buf: k,
        }
    }
}

impl<M: Alloc, H: Hooks> Tools<M, H> {
    /// The bytes that are held beside the count tables.
    pub open spec fn base(&self) -> int {
        self.mem.held() - space::<u32>(self.tables@.len())
    }

    /// Count tables of at least `entries` entries, grown to the largest size a
    /// radix pass has asked for and kept for the rest of the sort.
    pub fn hist(&mut self, entries: usize) -> (r: Result<(), AllocError>)
        requires
            old(self).base() >= 0,
        ensures
            r is Ok ==> final(self).tables@.len() >= entries && final(self).mem.refusals() == old(self).mem.refusals(),
            r is Err ==> final(self).mem.refusals() > old(self).mem.refusals(),
            r is Ok ==> track(*final(self)) == tables_for(track(*old(self)), entries as nat),
            old(self).tables@.len() >= entries ==> r is Ok && *final(self) == *old(self),
            old(self).tables@.len() < entries ==> {
                &&& final(self).mem.asked() == asks_for::<u32>(old(self).mem.asked(), entries as nat)
                &&& too_large::<u32>(entries as nat) ==> r is Err
                &&& final(self).tables@.len() == if r is Ok {
                    entries as int
                } else {
                    0
                }
            },
            final(self).hooks.tally() == old(self).hooks.tally(),
            keeps_record(old(self).hooks, final(self).hooks),
            final(self).base() == old(self).base(),
            final(self).machine == old(self).machine,
    {
        if self.tables.len() >= entries {
            return Ok(());
        }
        let mut gone: Vec<u32> = Vec::new();
        core::mem::swap(&mut gone, &mut self.tables);
        let size: usize = gone.len();
        give_array(&mut self.mem, gone, size, &mut self.hooks);
        proof {
            lemma_no_space::<u32>();
        }
        match take_filled(&mut self.mem, entries, 0u32, &mut self.hooks) {
            Ok(v) => {
                self.tables = v;
                Ok(())
            },
            Err(e) => Err(e),
        }
    }
}

/// The element scratch buffer, allocated on first use and sized by the route
/// that needs it, so the routes that need none (sorted, reversed) cost no
/// memory and the others get exactly what they ask for.
pub struct Scratch<T, M, H> {
    /// The buffer.
    pub buf: Vec<T>,
    /// Everything else.
    pub tools: Tools<M, H>,
}

impl<T: Elem, M: Alloc, H: Hooks> Scratch<T, M, H> {
    /// How often memory was refused so far.
    pub open spec fn refusals(&self) -> nat {
        self.tools.mem.refusals()
    }

    /// The bytes that are held beside the buffer and the count tables.
    pub open spec fn base(&self) -> int {
        self.tools.base() - space::<T>(self.buf@.len())
    }

    /// Empty.
    pub fn new(mem: M, hooks: H, machine: Machine) -> (r: Self)
        ensures
            r.buf@ == Seq::<T>::empty(),
            r.tools.tables@ == Seq::<u32>::empty(),
            r.tools.mem == mem,
            r.tools.hooks == hooks,
            r.tools.machine == machine,
            r.base() == mem.held(),
    {
        proof {
            lemma_no_space::<u32>();
            lemma_no_space::<T>();
        }
        Scratch { buf: Vec::new(), tools: Tools { mem, hooks, tables: Vec::new(), machine } }
    }

    /// A buffer of at least `k` elements; grows (discarding contents) if needed.
    pub fn ensure(&mut self, like: T, k: usize) -> (r: Result<(), AllocError>)
        requires
            old(self).base() >= 0,
        ensures
            r is Ok ==> final(self).buf@.len() >= k && final(self).refusals() == old(self).refusals(),
            r is Ok ==> trail(*final(self)) == buffer_for::<T, H::Tally>(trail(*old(self)), k as nat),
            old(self).buf@.len() >= k ==> r is Ok && *final(self) == *old(self),
            old(self).buf@.len() < k ==> {
                &&& final(self).tools.mem.asked() == asks_for::<T>(old(self).tools.mem.asked(), k as nat)
                &&& too_large::<T>(k as nat) ==> r is Err
                &&& final(self).buf@.len() == if r is Ok {
                    k as int
                } else {
                    0
                }
            },
            r is Err ==> final(self).refusals() > old(self).refusals(),
            final(self).tools.hooks.tally() == old(self).tools.hooks.tally(),
            keeps_record(old(self).tools.hooks, final(self).tools.hooks),
            final(self).base() == old(self).base(),
            final(self).tools.tables@ == old(self).tools.tables@,
            final(self).tools.machine == old(self).tools.machine,
    {
        if self.buf.len() >= k {
            return Ok(());
        }
        let mut gone: Vec<T> = Vec::new();
        core::mem::swap(&mut gone, &mut self.buf);
        let size: usize = gone.len();
        give_array(&mut self.tools.mem, gone, size, &mut self.tools.hooks);
        proof {
            lemma_no_space::<T>();
        }
        match take_filled(&mut self.tools.mem, k, like, &mut self.tools.hooks) {
            Ok(v) => {
                self.buf = v;
                Ok(())
            },
            Err(e) => Err(e),
        }
    }

    /// Capacity of the element buffer.
    pub fn capacity(&self) -> (r: usize)
        ensures
            r == self.buf@.len(),
    {
        self.buf.len()
    }

    /// The element buffer.
    pub fn buffer(&self) -> (r: &Vec<T>)
        ensures
            r@ == self.buf@,
    {
        &self.buf
    }

    /// Gives the memory back; returns what hands it out and what records.
    pub fn release(self) -> (r: (M, H))
        requires
            self.base() >= 0,
        ensures
            r.0.refusals() == self.refusals(),
            r.0.held() == self.base(),
            r.0.asked() == self.tools.mem.asked(),
            r.1.tally() == self.tools.hooks.tally(),
            keeps_record(self.tools.hooks, r.1),
    {
        let Scratch { buf, tools } = self;
        let Tools { mem, hooks, tables, machine } = tools;
        let mut mem: M = mem;
        let mut hooks: H = hooks;
        let size: usize = buf.len();
        give_array(&mut mem, buf, size, &mut hooks);
        let entries: usize = tables.len();
        give_array(&mut mem, tables, entries, &mut hooks);
        (mem, hooks)
    }
}


// ---- the ranges ----------------------------------------------------------------------------------

/// With one chunk, the order of elements is the order of the chunk.
proof fn lemma_single_chunk<T: Elem>(a: Seq<T>, b: Seq<T>, c: int)
    requires
        chunk_ready(a, c),
        forall|x: T| (#[trigger] x.chunks()).len() == 1,
        chunk_sorted(c, a, b),
    ensures
        stable_sort_of(elem_le::<T>(), a, b),
{
    let le = elem_le::<T>();
    reveal_with_fuel(lex_le_from, 2);
    lemma_permutation_len(a, b);
    assert forall|i: int, j: int| 0 <= i <= j < b.len() implies le(#[trigger] b[i], #[trigger] b[j]) by {
        assert(c < a[0].chunks().len());
        assert(by_key(chunk_key::<T>(c))(b[i], b[j]));
        assert(b[i].chunks().len() == 1 && b[j].chunks().len() == 1);
    }
}

/// Elements that agree up to a chunk and differ there are ordered by it.
proof fn lemma_chunk_less<T: Elem>(x: T, y: T, c: int)
    requires
        0 <= c < x.chunks().len(),
        c < y.chunks().len(),
        agree_below(x.chunks(), y.chunks(), c),
        x.chunks()[c] < y.chunks()[c],
    ensures
        lex_le(x.chunks(), y.chunks()),
{
    lemma_lex_agree(x.chunks(), y.chunks(), c);
}

/// `x` and `y` are sorted by the whole key but for pairs inside `[lo, hi)`.
spec fn sorted_outside<T>(le: spec_fn(T, T) -> bool, s: Seq<T>, lo: int, hi: int) -> bool {
    forall|i: int, j: int|
        0 <= i <= j < s.len() && !(lo <= i && j < hi) ==> le(#[trigger] s[i], #[trigger] s[j])
}

/// A stretch replaced by a rearrangement of it that is stable.
proof fn lemma_replace<T>(le: spec_fn(T, T) -> bool, o: Seq<T>, a: Seq<T>, lo: int, hi: int, m: Seq<T>)
    requires
        0 <= lo <= hi <= a.len(),
        stable(le, o, a),
        permutation(o, a),
        stable(le, a.subrange(lo, hi), m),
        permutation(a.subrange(lo, hi), m),
    ensures
        m.len() == hi - lo,
        stable(le, o, a.take(lo) + m + a.skip(hi)),
        permutation(o, a.take(lo) + m + a.skip(hi)),
{
    let (x, y, z) = (a.take(lo), a.subrange(lo, hi), a.skip(hi));
    lemma_permutation_len(y, m);
    assert(x + y + z =~= a);
    lemma_stable_add(le, x, y, x, m);
    lemma_stable_add(le, x + y, z, x + m, z);
    lemma_permutation_add(x, y, x, m);
    lemma_permutation_add(x + y, z, x + m, z);
    lemma_stable_trans(le, o, a, x + m + z);
}

/// What is sorted outside a stretch stays so when the stretch is rearranged.
proof fn lemma_replace_outside<T>(le: spec_fn(T, T) -> bool, a: Seq<T>, lo: int, hi: int, m: Seq<T>)
    requires
        0 <= lo <= hi <= a.len(),
        sorted_outside(le, a, lo, hi),
        permutation(a.subrange(lo, hi), m),
    ensures
        m.len() == hi - lo,
        sorted_outside(le, a.take(lo) + m + a.skip(hi), lo, hi),
        sorted(le, m) ==> sorted(le, a.take(lo) + m + a.skip(hi)),
{
    let y = a.subrange(lo, hi);
    lemma_permutation_len(y, m);
    let b = a.take(lo) + m + a.skip(hi);
    assert forall|k: int| lo <= k < hi implies exists|q: int| lo <= q < hi && a[q] == #[trigger] b[k] by {
        let q = lemma_permutation_member(m, y, k - lo);
        assert(a[lo + q] == b[k]);
    }
    assert forall|i: int, j: int| 0 <= i <= j < b.len() && !(lo <= i && j < hi) implies le(#[trigger] b[i], #[trigger] b[j]) by {
        if lo <= i < hi {
            let q = choose|q: int| lo <= q < hi && a[q] == b[i];
            assert(b[j] == a[j]);
            assert(le(a[q], a[j]));
        } else if lo <= j < hi {
            let q = choose|q: int| lo <= q < hi && a[q] == b[j];
            assert(b[i] == a[i]);
            assert(le(a[i], a[q]));
        } else {
            assert(b[i] == a[i] && b[j] == a[j]);
            assert(le(a[i], a[j]));
        }
    }
    if sorted(le, m) {
        assert forall|i: int, j: int| 0 <= i <= j < b.len() implies le(#[trigger] b[i], #[trigger] b[j]) by {
            if lo <= i && j < hi {
                assert(b[i] == m[i - lo] && b[j] == m[j - lo]);
            }
        }
    }
}

/// What is sorted outside a stretch, and in it outside a smaller one, is sorted
/// outside the smaller one.
proof fn lemma_narrowed<T>(le: spec_fn(T, T) -> bool, a: Seq<T>, lo: int, hi: int, l: int, h: int)
    requires
        0 <= lo <= l <= h <= hi <= a.len(),
        sorted_outside(le, a, lo, hi),
        sorted_outside(le, a.subrange(lo, hi), l - lo, h - lo),
    ensures
        sorted_outside(le, a, l, h),
{
    let m = a.subrange(lo, hi);
    assert forall|i: int, j: int| 0 <= i <= j < a.len() && !(l <= i && j < h) implies le(#[trigger] a[i], #[trigger] a[j]) by {
        if lo <= i && j < hi {
            assert(le(m[i - lo], m[j - lo]));
        }
    }
}

/// Keys that end at a chunk they share up to are the same.
proof fn lemma_ended<T: Elem>(s: Seq<T>, c: int)
    requires
        chunk_ready(s, c),
        forall|i: int| 0 <= i < s.len() ==> (#[trigger] s[i]).chunks()[c] == s[0].chunks()[c],
        s.len() > 0 ==> s[0].chunks().len() == c + 1,
    ensures
        sorted(elem_le::<T>(), s),
{
    let le = elem_le::<T>();
    lemma_elem_le_total::<T>();
    assert forall|i: int, j: int| 0 <= i <= j < s.len() implies le(#[trigger] s[i], #[trigger] s[j]) by {
        assert(agree_below(s[0].chunks(), s[i].chunks(), c));
        assert(agree_below(s[0].chunks(), s[j].chunks(), c));
        T::chunks_end_together(s[0], s[i], c);
        T::chunks_end_together(s[0], s[j], c);
        assert(s[i].chunks() =~= s[j].chunks());
        lemma_elem_tied(s[i], s[j]);
    }
}

/// A sorted group behind what is sorted outside a stretch.
proof fn lemma_extend<T: Elem>(a: Seq<T>, g: int, e: int, lo: int, hi: int, c: int)
    requires
        0 <= lo <= hi,
        0 <= g <= e <= a.len(),
        hi <= g || (lo == g && hi == e),
        chunk_ready(a, c),
        sorted_outside(elem_le::<T>(), a.take(g), lo, hi),
        forall|i: int, j: int| 0 <= i < g <= j < e ==> (#[trigger] a[i]).chunks()[c] < (#[trigger] a[j]).chunks()[c],
        sorted(elem_le::<T>(), a.subrange(g, e)) || (lo == g && hi == e),
    ensures
        sorted_outside(elem_le::<T>(), a.take(e), lo, hi),
{
    let le = elem_le::<T>();
    let t = a.take(e);
    assert forall|i: int, j: int| 0 <= i <= j < t.len() && !(lo <= i && j < hi) implies le(#[trigger] t[i], #[trigger] t[j]) by {
        if j < g {
            assert(le(a.take(g)[i], a.take(g)[j]));
        } else if i < g {
            assert(agree_below(a[i].chunks(), a[j].chunks(), c));
            lemma_chunk_less(a[i], a[j], c);
        } else {
            assert(le(a.subrange(g, e)[i - g], a.subrange(g, e)[j - g]));
        }
    }
}

/// At most half as many: one doubling less.
proof fn lemma_halved(x: int, n: int)
    requires
        1 <= x,
        2 * x <= n,
    ensures
        0 <= log(2, x) < log(2, n),
{
    lemma_log_s(2, n);
    lemma_log_is_ordered(2, x, n / 2);
    lemma_log_nonnegative(2, x);
}

/// A stretch of one chunk value was sorted.
proof fn lemma_stretch_sorted<T: Elem>(o: Seq<T>, a: Seq<T>, b: Seq<T>, lo: int, hi: int, c: int)
    requires
        0 <= lo <= hi <= a.len() == b.len() == o.len(),
        chunk_ready(o, c),
        stable(elem_le::<T>(), o, a),
        permutation(o, a),
        forall|k: int| 0 <= k < o.len() ==> (#[trigger] a[k]).chunks()[c] == o[k].chunks()[c],
        forall|k: int| lo <= k < hi ==> (#[trigger] o[k]).chunks()[c] == o[lo].chunks()[c],
        forall|k: int| 0 <= k < lo || hi <= k < a.len() ==> #[trigger] b[k] == a[k],
        stable_sort_of(elem_le::<T>(), a.subrange(lo, hi), b.subrange(lo, hi)),
    ensures
        chunk_ready(b, c),
        stable(elem_le::<T>(), o, b),
        permutation(o, b),
        forall|k: int| 0 <= k < o.len() ==> (#[trigger] b[k]).chunks()[c] == o[k].chunks()[c],
{
    let le = elem_le::<T>();
    let x = a.subrange(lo, hi);
    let m = b.subrange(lo, hi);
    lemma_replace(le, o, a, lo, hi, m);
    assert(b =~= a.take(lo) + m + a.skip(hi));
    lemma_chunk_ready_permutation(o, b, c);
    assert forall|k: int| 0 <= k < o.len() implies (#[trigger] b[k]).chunks()[c] == o[k].chunks()[c] by {
        if lo <= k < hi {
            let q = lemma_permutation_member(m, x, k - lo);
            assert(b[k] == m[k - lo]);
            assert(b[k] == a[lo + q]);
            assert(a[lo + q].chunks()[c] == o[lo + q].chunks()[c]);
            assert(o[lo + q].chunks()[c] == o[lo].chunks()[c]);
            assert(o[k].chunks()[c] == o[lo].chunks()[c]);
        } else {
            assert(b[k] == a[k]);
        }
    }
}

/// A stretch was rearranged.
proof fn lemma_stretch_permuted<T>(o: Seq<T>, a: Seq<T>, b: Seq<T>, lo: int, hi: int)
    requires
        0 <= lo <= hi <= a.len() == b.len(),
        permutation(o, a),
        forall|k: int| 0 <= k < lo || hi <= k < a.len() ==> #[trigger] b[k] == a[k],
        permutation(a.subrange(lo, hi), b.subrange(lo, hi)),
    ensures
        permutation(o, b),
{
    let (x, y, z) = (a.take(lo), a.subrange(lo, hi), a.skip(hi));
    let m = b.subrange(lo, hi);
    lemma_permutation_add(x, y, x, m);
    lemma_permutation_add(x + y, z, x + m, z);
    assert(x + y + z =~= a);
    assert(x + m + z =~= b);
}

/// The one stretch that was left was sorted.
proof fn lemma_group_sorted<T: Elem>(o: Seq<T>, a: Seq<T>, b: Seq<T>, g: int, lo: int, hi: int, c: int)
    requires
        0 <= lo <= hi <= g <= a.len() == b.len() == o.len(),
        sorted_outside(elem_le::<T>(), a.take(g), lo, hi),
        forall|k: int| 0 <= k < lo || hi <= k < a.len() ==> #[trigger] b[k] == a[k],
        stable_sort_of(elem_le::<T>(), a.subrange(lo, hi), b.subrange(lo, hi)),
    ensures
        sorted(elem_le::<T>(), b.take(g)),
{
    let le = elem_le::<T>();
    let t = a.take(g);
    let m = b.subrange(lo, hi);
    assert(t.subrange(lo, hi) =~= a.subrange(lo, hi));
    lemma_replace_outside(le, t, lo, hi, m);
    assert(b.take(g) =~= t.take(lo) + m + t.skip(hi));
}

/// The largest group that was left for later.
#[derive(Clone, Copy, Debug)]
pub struct Group {
    /// Where it starts.
    pub start: usize,
    /// How many elements it has; below 2: none was left.
    pub len: usize,
}

/// Sorts the groups that tie on `chunk`, on the chunks after it. Each group that
/// has not reached the end of its keys is sorted here but for the largest, which
/// is returned: every group sorted here has at most half of the elements.
#[verifier::rlimit(40)]
fn sort_groups<T: Elem, M: Alloc, H: Hooks>(a: &mut [T], scratch: &mut Scratch<T, M, H>, chunk: u64, digit_bits: u32) -> (r: Result<Group, AllocError>)
    requires
        old(scratch).base() >= 0,
        0 < old(a)@.len() <= 0xFFFF_FFFF,
        chunk_ready(old(a)@, chunk as int),
        sorted(by_key(chunk_key(chunk as int)), old(a)@),
        digit_bits == 0 || 8 <= digit_bits < 32,
    ensures
        keeps_counts(old(scratch).tools.hooks, final(scratch).tools.hooks),
        goes_down(old(scratch).tools.hooks, final(scratch).tools.hooks, log(2, old(a)@.len() as int) - 1),
        r is Ok ==> stable(elem_le::<T>(), old(a)@, final(a)@) && permutation(old(a)@, final(a)@),
        r matches Ok(g) ==> g.len < 2 ==> sorted(elem_le::<T>(), final(a)@),
        r matches Ok(g) ==> g.len >= 2 ==> {
            &&& g.start + g.len <= final(a)@.len()
            &&& sorted_outside(elem_le::<T>(), final(a)@, g.start as int, g.start + g.len)
            &&& chunk_ready(final(a)@.subrange(g.start as int, g.start + g.len), chunk + 1)
            &&& chunk < 0xF_FFFF_FFFF
        },
        r matches Ok(g) ==> final(scratch).refusals() == old(scratch).refusals() ==> groups_end::<T, H>(
            trail(*old(scratch)),
            old(a)@,
            chunk,
            digit_bits,
            old(scratch).tools.machine,
            0,
            0,
            0,
        ) == (RoundEnd {
            trail: trail(*final(scratch)),
            left: if g.len < 2 {
                None
            } else {
                Some((final(a)@.subrange(g.start as int, g.start + g.len), (chunk + 1) as u64))
            },
        }),
        r is Err ==> final(scratch).refusals() > old(scratch).refusals(),
        r is Err && old(a)@.len() < SPLIT_MIN ==> permutation(old(a)@, final(a)@),
        final(scratch).refusals() >= old(scratch).refusals(),
        final(scratch).base() == old(scratch).base(),
        final(a)@.len() == old(a)@.len(),
        final(scratch).tools.machine == old(scratch).tools.machine,
    decreases log(2, old(a)@.len() as int), 0int,
{
    let n: usize = a.len();
    let ghost o = a@;
    let ghost c = chunk as int;
    let ghost le = elem_le::<T>();
    let mut big = Group { start: 0, len: 0 };
    let mut g: usize = 0;
    let ghost machine = scratch.tools.machine;
    let ghost whole = groups_end::<T, H>(trail(*scratch), o, chunk, digit_bits, machine, 0, 0, 0);
    proof {
        o[0].chunks_fit();
    }
    while g < n
        invariant
            keeps_counts(old(scratch).tools.hooks, scratch.tools.hooks),
            goes_down(old(scratch).tools.hooks, scratch.tools.hooks, log(2, n as int) - 1),
            g <= n == o.len() == a@.len(),
            n <= 0xFFFF_FFFF,
            o == old(a)@,
            c == chunk,
            chunk < 0xF_FFFF_FFFF,
            le == elem_le::<T>(),
            digit_bits == 0 || 8 <= digit_bits < 32,
            chunk_ready(o, c),
            chunk_ready(a@, c),
            sorted(by_key(chunk_key(c)), o),
            stable(le, o, a@),
            permutation(o, a@),
            forall|k: int| 0 <= k < n ==> (#[trigger] a@[k]).chunks()[c] == o[k].chunks()[c],
            forall|i: int, j: int| 0 <= i < g <= j < n ==> (#[trigger] o[i]).chunks()[c] < (#[trigger] o[j]).chunks()[c],
            sorted_outside(le, a@.take(g as int), big.start as int, big.start + big.len),
            machine == scratch.tools.machine,
            scratch.refusals() == old(scratch).refusals() ==> whole == groups_end::<T, H>(trail(*scratch), o, chunk, digit_bits, machine, g as int, big.start as int, big.len as int),
            forall|k: int| g <= k < n ==> #[trigger] a@[k] == o[k],
            big.len > 0 ==> a@.subrange(big.start as int, big.start + big.len) == o.subrange(big.start as int, big.start + big.len),
            big.len == 0 || big.len >= 2,
            big.start + big.len <= g,
            big.len > 0 ==> chunk_ready(a@.subrange(big.start as int, big.start + big.len), c + 1),
            big.len > 0 ==> forall|k: int| big.start <= k < big.start + big.len ==> (#[trigger] o[k]).chunks()[c] == o[big.start as int].chunks()[c],
            scratch.refusals() >= old(scratch).refusals(),
            scratch.base() == old(scratch).base(),
            scratch.base() >= 0,
            scratch.tools.machine == old(scratch).tools.machine,
        decreases n - g,
    {
        let ghost begun = trail(*scratch);
        let ghost refused = scratch.refusals();
        let ghost big0 = big;
        let ghost stretch0 = a@.subrange(big.start as int, big.start + big.len);
        let eg: T = a[g];
        assert(a@[g as int] == o[g as int]);
        let k: u64 = T::radix_key(eg, chunk).to_u64();
        scratch.tools.hooks.on_read(&*a, g);
        note_key(eg, chunk, &mut scratch.tools.hooks);
        let mut e: usize = g + 1;
        let mut more = true;
        let ghost reach = group_scan::<T, H>(scratch.tools.hooks.tally(), o, c, k, e as int);
        while e < n && more
            invariant
                keeps_counts(old(scratch).tools.hooks, scratch.tools.hooks),
                goes_down(old(scratch).tools.hooks, scratch.tools.hooks, log(2, n as int) - 1),
                g < e <= n == o.len() == a@.len(),
                c == chunk,
                chunk_ready(a@, c),
                eg == a@[g as int],
                k == o[g as int].chunks()[c],
                forall|q: int| 0 <= q < n ==> (#[trigger] a@[q]).chunks()[c] == o[q].chunks()[c],
                forall|q: int| g <= q < e ==> (#[trigger] o[q]).chunks()[c] == k,
                !more ==> e < n && o[e as int].chunks()[c] != k,
                forall|q: int| g <= q < n ==> #[trigger] a@[q] == o[q],
                more ==> reach == group_scan::<T, H>(scratch.tools.hooks.tally(), o, c, k, e as int),
                !more ==> reach == (scratch.tools.hooks.tally(), e as int),
                trail(*scratch) == retold_trail(begun, scratch.tools.hooks.tally()),
                scratch.refusals() == refused,
                scratch.refusals() >= old(scratch).refusals(),
                scratch.base() == old(scratch).base(),
                scratch.base() >= 0,
                scratch.tools.machine == old(scratch).tools.machine,
            decreases
                n - e + (if more {
                    1int
                } else {
                    0int
                }),
        {
            assert(a@[e as int] == o[e as int]);
            scratch.tools.hooks.on_read(&*a, e);
            note_key(a[e], chunk, &mut scratch.tools.hooks);
            if T::radix_key(a[e], chunk).to_u64() == k {
                e += 1;
            } else {
                more = false;
            }
        }
        proof {
            assert forall|i: int, j: int| 0 <= i < e <= j < n implies (#[trigger] o[i]).chunks()[c] < (#[trigger] o[j]).chunks()[c] by {
                assert(by_key(chunk_key::<T>(c))(o[g as int], o[e as int]));
                assert(by_key(chunk_key::<T>(c))(o[i], o[e as int]));
                assert(by_key(chunk_key::<T>(c))(o[e as int], o[j]));
                if i < g {
                    assert(o[i].chunks()[c] < o[j].chunks()[c]);
                } else {
                    assert(o[i].chunks()[c] == k);
                }
            }
        }
        let ghost here = trail(*scratch);
        assert(reach == (scratch.tools.hooks.tally(), e as int));
        let ghost sub = a@.subrange(g as int, e as int);
        assert(sub =~= o.subrange(g as int, e as int));
        proof {
            assert(chunk_ready(sub, c)) by {
                assert forall|i: int, j: int| 0 <= i < sub.len() && 0 <= j < sub.len() implies agree_below((#[trigger] sub[i]).chunks(), (#[trigger] sub[j]).chunks(), c) by {
                    assert(agree_below(a@[g + i].chunks(), a@[g + j].chunks(), c));
                }
            }
            assert forall|i: int| 0 <= i < sub.len() implies (#[trigger] sub[i]).chunks()[c] == sub[0].chunks()[c] by {
                assert(sub[i] == a@[g + i] && sub[0] == a@[g as int]);
                assert(o[g + i].chunks()[c] == k && o[g as int].chunks()[c] == k);
            }
        }
        if e - g > 1 && !T::chunk_ends(eg, chunk) {
            proof {
                lemma_next_chunk(sub, c);
            }
            if e - g > big.len {
                if big.len > 1 {
                    let ghost before = a@;
                    let ghost (lo, hi) = (big.start as int, big.start + big.len);
                    proof {
                        lemma_halved(big.len as int, n as int);
                    }
                    match sort_stretch(a, big.start, big.start + big.len, scratch, chunk + 1, digit_bits) {
                        Ok(_) => {},
                        Err(x) => {
                            proof {
                                if n < SPLIT_MIN {
                                    lemma_stretch_permuted(o, before, a@, lo, hi);
                                }
                            }
                            return Err(x);
                        },
                    }
                    proof {
                        lemma_stretch_sorted(o, before, a@, lo, hi, c);
                        lemma_group_sorted(o, before, a@, g as int, lo, hi, c);
                        assert(a@.subrange(g as int, e as int) =~= sub);
                        assert forall|q: int| g <= q < n implies #[trigger] a@[q] == o[q] by {
                            assert(a@[q] == before[q]);
                        }
                    }
                }
                big = Group { start: g, len: e - g };
                proof {
                    assert(sorted_outside(le, a@.take(g as int), g as int, e as int));
                    lemma_extend(a@, g as int, e as int, g as int, e as int, c);
                }
            } else {
                let ghost before = a@;
                proof {
                    lemma_halved(e - g, n as int);
                }
                match sort_stretch(a, g, e, scratch, chunk + 1, digit_bits) {
                    Ok(_) => {},
                    Err(x) => {
                        proof {
                            if n < SPLIT_MIN {
                                lemma_stretch_permuted(o, before, a@, g as int, e as int);
                            }
                        }
                        return Err(x);
                    },
                }
                proof {
                    lemma_stretch_sorted(o, before, a@, g as int, e as int, c);
                    assert(a@.take(g as int) =~= before.take(g as int));
                    assert forall|q: int| e <= q < n implies #[trigger] a@[q] == o[q] by {
                        assert(a@[q] == before[q]);
                    }
                    assert(a@.subrange(big.start as int, big.start + big.len) =~= before.subrange(big.start as int, big.start + big.len));
                    lemma_extend(a@, g as int, e as int, big.start as int, big.start + big.len, c);
                }
            }
        } else {
            proof {
                lemma_elem_le_total::<T>();
                if e - g > 1 {
                    lemma_ended(sub, c);
                } else {
                    assert(sorted(le, sub));
                }
                lemma_extend(a@, g as int, e as int, big.start as int, big.start + big.len, c);
            }
        }
        proof {
            assert(here == retold_trail(begun, reach.0));
            if scratch.refusals() == old(scratch).refusals() {
                assert(big0.len > 0 ==> stretch0 == o.subrange(big0.start as int, big0.start + big0.len));
                assert(groups_end::<T, H>(begun, o, chunk, digit_bits, machine, g as int, big0.start as int, big0.len as int) == groups_end::<T, H>(
                    trail(*scratch),
                    o,
                    chunk,
                    digit_bits,
                    machine,
                    e as int,
                    big.start as int,
                    big.len as int,
                ));
            }
        }
        g = e;
    }
    assert(a@.take(n as int) =~= a@);
    Ok(big)
}


/// Sorts `a[lo, hi)`, whose elements share the chunks before `chunk`.
fn sort_stretch<T: Elem, M: Alloc, H: Hooks>(a: &mut [T], lo: usize, hi: usize, scratch: &mut Scratch<T, M, H>, chunk: u64, digit_bits: u32) -> (r: Result<(), AllocError>)
    requires
        old(scratch).base() >= 0,
        lo < hi <= old(a)@.len() <= 0xFFFF_FFFF,
        chunk_ready(old(a)@.subrange(lo as int, hi as int), chunk as int),
        digit_bits == 0 || 8 <= digit_bits < 32,
    ensures
        keeps_counts(old(scratch).tools.hooks, final(scratch).tools.hooks),
        goes_down(old(scratch).tools.hooks, final(scratch).tools.hooks, levels(hi - lo)),
        r is Ok ==> stable_sort_of(elem_le::<T>(), old(a)@.subrange(lo as int, hi as int), final(a)@.subrange(lo as int, hi as int)),
        forall|k: int| 0 <= k < lo || hi <= k < old(a)@.len() ==> #[trigger] final(a)@[k] == old(a)@[k],
        final(scratch).refusals() == old(scratch).refusals() ==> trail(*final(scratch)) == range_end::<T, H>(
            trail(*old(scratch)),
            old(a)@.subrange(lo as int, hi as int),
            chunk,
            false,
            digit_bits,
            old(scratch).tools.machine,
        ),
        r is Err ==> final(scratch).refusals() > old(scratch).refusals(),
        r is Err && old(a)@.len() < SPLIT_MIN ==> permutation(old(a)@.subrange(lo as int, hi as int), final(a)@.subrange(lo as int, hi as int)),
        final(scratch).refusals() >= old(scratch).refusals(),
        final(scratch).base() == old(scratch).base(),
        final(a)@.len() == old(a)@.len(),
        final(scratch).tools.machine == old(scratch).tools.machine,
    decreases log(2, hi - lo), 4int,
{
    let ghost o = a@;
    let (x, rest) = a.split_at_mut(lo);
    let (mid, y) = rest.split_at_mut(hi - lo);
    assert(mid@ =~= o.subrange(lo as int, hi as int));
    let r = sort_range(mid, scratch, chunk, false, digit_bits);
    assert(after_borrow(a)@.subrange(lo as int, hi as int) =~= mid@);
    match r {
        Ok(in_src) => {
            assert(in_src);
            Ok(())
        },
        Err(e) => Err(e),
    }
}

/// Elements that are sorted without any memory: up to `INSERTION_MAX` of them,
/// and those in order or in reversed order.
pub open spec fn at_ease<T: Elem>(a: Seq<T>) -> bool {
    ||| a.len() <= INSERTION_MAX
    ||| a.len() <= 0xFFFF_FFFF && sorted(elem_le::<T>(), a)
    ||| a.len() <= 0xFFFF_FFFF && ascents_to(elem_le::<T>(), a, a.len() as int) == 0
}

/// Of `n` elements at least a block were read and compared.
pub open spec fn looked_at<H: Hooks>(before: H, now: H, n: int) -> bool {
    gained(before.reads(), now.reads(), least_scanned(n)) && gained(before.compares(), now.compares(), least_scanned(n) - 1)
}

/// The route of a range: 1 sorted, 2 reverse, 3 runs, 4 displaced, 5 radix.
pub open spec fn first_route<T: Elem>(a: Seq<T>) -> int {
    let le = elem_le::<T>();
    let n = a.len() as int;
    if exists|k: int| #[trigger] stops_at(le, a, k) {
        5
    } else if descents_to(le, a, n) == 0 {
        1
    } else if ascents_to(le, a, n) == 0 {
        2
    } else if runs_to(le, a, n).0 <= MAX_RUNS {
        3
    } else if descents_to(le, a, n) <= n / 16 {
        4
    } else {
        5
    }
}

/// The first route on record is that of `a`, where none was before and `a` is too
/// long for the insertion sort.
pub open spec fn routed<T: Elem, H: Hooks>(before: H, now: H, a: Seq<T>) -> bool {
    H::records() && before.route() == 0 ==> now.route() == if a.len() <= INSERTION_MAX {
        0
    } else {
        first_route(a)
    }
}

/// Elements of a few runs, which are merged.
pub open spec fn in_runs<T: Elem>(a: Seq<T>) -> bool {
    INSERTION_MAX < a.len() <= 0xFFFF_FFFF && first_route(a) == 3
}

/// So many sorts of a range of `n` elements are under way at once at most: one,
/// and those of its groups.
pub open spec fn levels(n: int) -> int {
    if n < 2 {
        1
    } else {
        log(2, n)
    }
}

/// Chunks are numbered below this.
pub const CHUNKS: u64 = 0x10_0000_0000;

/// Elements are ordered by their own order.
proof fn lemma_natural<T: Elem>()
    ensures
        tells_order::<T, Natural>(&Natural),
        order_of::<T, Natural>(&Natural) == elem_le::<T>(),
{
    assert(Less::<T>::follows(&Natural, elem_le::<T>()));
}

/// Where a round leads, and the elements that it leaves, which share the chunks
/// before the given one.
pub struct RoundEnd<T, L> {
    pub trail: Trail<L>,
    pub left: Option<(Seq<T>, u64)>,
}

/// The record once the elements from `e` on that have the key `k` were looked at,
/// and the one after them; and where these end.
pub open spec fn group_scan<T: Elem, H: Hooks>(t: H::Tally, s: Seq<T>, c: int, k: u64, e: int) -> (H::Tally, int)
    decreases s.len() - e,
{
    if e >= s.len() {
        (t, e)
    } else {
        let seen = H::after(H::after(t, Note::Read), Note::Key(s[e].key_load(c) as u64));
        if s[e].chunks()[c] == k {
            group_scan::<T, H>(seen, s, c, k, e + 1)
        } else {
            (seen, e)
        }
    }
}

/// Where sorting the groups of ties from `g` on leads, with the largest group so
/// far, of `len` elements from `start` on, left for later.
pub open spec fn groups_end<T: Elem, H: Hooks>(t: Trail<H::Tally>, s: Seq<T>, chunk: u64, digit_bits: u32, machine: Machine, g: int, start: int, len: int) -> RoundEnd<T, H::Tally>
    decreases CHUNKS - chunk, 0int, s.len() - g,
{
    let c = chunk as int;
    if g >= s.len() || chunk >= CHUNKS {
        RoundEnd {
            trail: t,
            left: if len < 2 {
                None
            } else {
                Some((s.subrange(start, start + len), (chunk + 1) as u64))
            },
        }
    } else {
        let seen = H::after(H::after(t.track.tally, Note::Read), Note::Key(s[g].key_load(c) as u64));
        let (tally, e) = group_scan::<T, H>(seen, s, c, s[g].chunks()[c], g + 1);
        let here = retold_trail(t, tally);
        let next = (chunk + 1) as u64;
        if e <= g || e > s.len() {
            RoundEnd { trail: here, left: None }
        } else if e - g > 1 && s[g].chunks().len() != c + 1 {
            if e - g > len {
                let done = if len > 1 {
                    range_end::<T, H>(here, s.subrange(start, start + len), next, false, digit_bits, machine)
                } else {
                    here
                };
                groups_end::<T, H>(done, s, chunk, digit_bits, machine, e, g, e - g)
            } else {
                groups_end::<T, H>(range_end::<T, H>(here, s.subrange(g, e), next, false, digit_bits, machine), s, chunk, digit_bits, machine, e, start, len)
            }
        } else {
            groups_end::<T, H>(here, s, chunk, digit_bits, machine, e, start, len)
        }
    }
}

/// The scout pass stops early.
pub open spec fn stops_early<T: Elem>(a: Seq<T>) -> bool {
    exists|k: int| #[trigger] stops_at(elem_le::<T>(), a, k)
}

/// Where the displaced-element route leads, with the record `tally` to begin with:
/// whether it sorts, and where the routes stand then.
pub open spec fn near_end<T: Elem, H: Hooks>(t: Trail<H::Tally>, tally: H::Tally, a: Seq<T>) -> (bool, Trail<H::Tally>) {
    let d = displaced_end::<T, Natural, H>(&Natural, elem_le::<T>(), tally, t.track.books, a);
    (d.0, Trail { track: Track { tally: d.1, tables: t.track.tables, books: d.2 }, buf: t.buf })
}

/// Where a round leads: the route that the scout pass picks is taken. Chunked keys
/// that took the radix route leave the largest group of ties.
#[verifier::opaque]
pub open spec fn round_end<T: Elem, H: Hooks>(t: Trail<H::Tally>, a: Seq<T>, chunk: u64, free: bool, digit_bits: u32, machine: Machine) -> RoundEnd<T, H::Tally>
    decreases CHUNKS - chunk, 1int, 0int,
{
    let le = elem_le::<T>();
    let n = a.len() as int;
    let c = chunk as int;
    let early = stops_early(a);
    let seen = scout_tally::<T, H>(t.track.tally, a, c, scanned(le, a));
    if n <= INSERTION_MAX {
        RoundEnd { trail: retold_trail(t, insertion_tally::<T, Natural, H>(&Natural, le, t.track.tally, a, n)), left: None }
    } else if !early && descents_to(le, a, n) == 0 {
        RoundEnd { trail: retold_trail(t, H::after(seen, Note::Route(1))), left: None }
    } else if !early && ascents_to(le, a, n) == 0 {
        RoundEnd { trail: retold_trail(t, reverse_tally::<T, H>(H::after(seen, Note::Route(2)), a)), left: None }
    } else if !early && runs_to(le, a, n).0 <= MAX_RUNS {
        RoundEnd {
            trail: retold_trail(buffer_for::<T, H::Tally>(t, a.len() / 2 + 1), few_runs_tally::<T, H>(H::after(seen, Note::Route(3)), a)),
            left: None,
        }
    } else {
        let near = !early && descents_to(le, a, n) <= n / 16;
        let (sorts, tried) = near_end::<T, H>(t, H::after(seen, Note::Route(4)), a);
        if near && sorts {
            RoundEnd { trail: tried, left: None }
        } else {
            let here = if near {
                retold_trail(tried, H::after(tried.track.tally, Note::Count(Stat::Giveups, 1)))
            } else {
                retold_trail(t, seen)
            };
            let e = route_end::<T, H>(
                retold_trail(here, H::after(here.track.tally, Note::Route(5))),
                a,
                chunk,
                scout_mask(a, c),
                !early && !T::has_chunks(),
                early || descents_to(le, a, n) > (n - 1) / 4,
                free && !T::has_chunks(),
                digit_bits,
                machine,
            );
            if T::has_chunks() && chunk <= e.chunk < CHUNKS {
                groups_end::<T, H>(e.trail, e.out, e.chunk, digit_bits, machine, 0, 0, 0)
            } else {
                RoundEnd { trail: e.trail, left: None }
            }
        }
    }
}

/// Where the rounds of a range lead.
#[verifier::opaque]
pub open spec fn rounds_end<T: Elem, H: Hooks>(t: Trail<H::Tally>, a: Seq<T>, chunk: u64, free: bool, digit_bits: u32, machine: Machine) -> Trail<H::Tally>
    decreases CHUNKS - chunk, 2int, 0int,
{
    if a.len() < 2 {
        t
    } else {
        let r = round_end::<T, H>(t, a, chunk, free, digit_bits, machine);
        match r.left {
            Some((s, next)) => if chunk < next < CHUNKS {
                rounds_end::<T, H>(r.trail, s, next, false, digit_bits, machine)
            } else {
                r.trail
            },
            None => r.trail,
        }
    }
}

/// The rounds go on with what a round leaves.
pub(crate) proof fn lemma_rounds_step<T: Elem, H: Hooks>(t: Trail<H::Tally>, a: Seq<T>, chunk: u64, free: bool, digit_bits: u32, machine: Machine)
    requires
        a.len() >= 2,
    ensures
        rounds_end::<T, H>(t, a, chunk, free, digit_bits, machine) == {
            let r = round_end::<T, H>(t, a, chunk, free, digit_bits, machine);
            match r.left {
                Some((s, next)) => if chunk < next < CHUNKS {
                    rounds_end::<T, H>(r.trail, s, next, false, digit_bits, machine)
                } else {
                    r.trail
                },
                None => r.trail,
            }
        },
{
    reveal(round_end);
    reveal(rounds_end);
}

/// Where sorting a range leads.
pub open spec fn range_end<T: Elem, H: Hooks>(t: Trail<H::Tally>, a: Seq<T>, chunk: u64, free: bool, digit_bits: u32, machine: Machine) -> Trail<H::Tally>
    decreases CHUNKS - chunk, 3int, 0int,
{
    let r = rounds_end::<T, H>(retold_trail(t, H::after(t.track.tally, Note::Enter)), a, chunk, free, digit_bits, machine);
    retold_trail(r, H::after(r.track.tally, Note::Leave))
}

/// Where a sort leads: what is on record and what memory was taken is a function of
/// the elements, the digits and the machine, and of where the sort began.
#[verifier::opaque]
pub open spec fn sort_end<T: Elem, H: Hooks>(t: Trail<H::Tally>, a: Seq<T>, free: bool, digit_bits: u32, machine: Machine) -> Trail<H::Tally> {
    let le = elem_le::<T>();
    let n = a.len() as int;
    if n < 2 {
        t
    } else if n <= INSERTION_MAX {
        retold_trail(t, insertion_tally::<T, Natural, H>(&Natural, le, t.track.tally, a, n))
    } else if n > 0xFFFF_FFFF {
        let tally = halves_tally::<T, Natural, H>(&Natural, le, after_copies::<H>(t.track.tally, n), a);
        Trail { track: Track { tally, tables: t.track.tables, books: given::<T>(taken::<T>(t.track.books, a.len()), a.len()) }, buf: t.buf }
    } else {
        range_end::<T, H>(t, a, 0, free, digit_bits, machine)
    }
}

/// What one round of `sort_range` left to do.
#[derive(Clone, Copy, Debug)]
pub enum Round {
    /// Nothing: the result is in the array.
    Sorted,
    /// Nothing: the result is in the buffer.
    InBuffer,
    /// The stretch, whose elements share the chunks before the given one.
    Left {
        /// Where it starts.
        start: usize,
        /// How many elements it has.
        len: usize,
        /// The chunk it is to be sorted from.
        chunk: u64,
    },
}

/// One round: picks the route for the range and takes it. A range of chunked
/// keys that took the radix route leaves the largest group of ties.
#[verifier::rlimit(40)]
fn sort_round<T: Elem, M: Alloc, H: Hooks>(a: &mut [T], scratch: &mut Scratch<T, M, H>, chunk: u64, free: bool, digit_bits: u32) -> (r: Result<Round, AllocError>)
    requires
        old(scratch).base() >= 0,
        old(a)@.len() <= 0xFFFF_FFFF,
        chunk_ready(old(a)@, chunk as int),
        digit_bits == 0 || 8 <= digit_bits < 32,
    ensures
        keeps_counts(old(scratch).tools.hooks, final(scratch).tools.hooks),
        routed(old(scratch).tools.hooks, final(scratch).tools.hooks, old(a)@),
        in_runs(old(a)@) && old(scratch).buf@.len() <= old(a)@.len() / 2 ==> final(scratch).tools.mem.asked() == asks_for::<T>(old(scratch).tools.mem.asked(), old(a)@.len() / 2 + 1),
        in_runs(old(a)@) && old(scratch).buf@.len() <= old(a)@.len() / 2 && too_large::<T>(old(a)@.len() / 2 + 1) ==> r is Err,
        in_runs(old(a)@) ==> r == Ok::<Round, AllocError>(Round::Sorted) || r is Err,
        goes_down(old(scratch).tools.hooks, final(scratch).tools.hooks, log(2, old(a)@.len() as int) - 1),
        H::records() && 2 <= old(a)@.len() <= 0xFFFF_FFFF ==> looked_at(old(scratch).tools.hooks, final(scratch).tools.hooks, old(a)@.len() as int),
        r == Ok::<Round, AllocError>(Round::Sorted) ==> stable_sort_of(elem_le::<T>(), old(a)@, final(a)@),
        r == Ok::<Round, AllocError>(Round::InBuffer) ==> free && old(a)@.len() <= final(scratch).buf@.len() && stable_sort_of(
            elem_le::<T>(),
            old(a)@,
            final(scratch).buf@.take(old(a)@.len() as int),
        ),
        r matches Ok(Round::Left { start, len, chunk: next }) ==> {
            &&& chunk < next < 0x10_0000_0000
            &&& len >= 2
            &&& start + len <= final(a)@.len()
            &&& stable(elem_le::<T>(), old(a)@, final(a)@)
            &&& permutation(old(a)@, final(a)@)
            &&& sorted_outside(elem_le::<T>(), final(a)@, start as int, start + len)
            &&& chunk_ready(final(a)@.subrange(start as int, start + len), next as int)
        },
        at_ease(old(a)@) ==> r == Ok::<Round, AllocError>(Round::Sorted) && final(scratch).tools.mem == old(scratch).tools.mem,
        r matches Ok(round) ==> final(scratch).refusals() == old(scratch).refusals() ==> round_end::<T, H>(
            trail(*old(scratch)),
            old(a)@,
            chunk,
            free,
            digit_bits,
            old(scratch).tools.machine,
        ) == (RoundEnd {
            trail: trail(*final(scratch)),
            left: match round {
                Round::Left { start, len, chunk: next } => Some((final(a)@.subrange(start as int, start + len), next)),
                _ => None,
            },
        }),
        r is Err ==> final(scratch).refusals() > old(scratch).refusals(),
        r is Err && old(a)@.len() < SPLIT_MIN ==> permutation(old(a)@, final(a)@),
        final(scratch).refusals() >= old(scratch).refusals(),
        final(scratch).base() == old(scratch).base(),
        final(a)@.len() == old(a)@.len(),
        final(scratch).tools.machine == old(scratch).tools.machine,
    decreases log(2, old(a)@.len() as int), 1int,
{
    let n: usize = a.len();
    let ghost o = a@;
    let ghost le = elem_le::<T>();
    proof {
        reveal(round_end);
    }
    if n <= INSERTION_MAX {
        insertion_sort(a, &mut scratch.tools.hooks);
        proof {
            assert(insertion_tally::<T, Natural, H>(&Natural, le, old(scratch).tools.hooks.tally(), o, 1) == old(scratch).tools.hooks.tally());
            assert(insertion_tally::<T, Natural, H>(&Natural, le, old(scratch).tools.hooks.tally(), o, 0) == old(scratch).tools.hooks.tally());
            lemma_permutation_len(o, a@);
            lemma_record::<H>(scratch.tools.hooks.tally(), insertion_tally::<T, Natural, H>(&Natural, le, old(scratch).tools.hooks.tally(), o, n as int));
        }
        return Ok(Round::Sorted);
    }
    let ghost begun = trail(*scratch);
    let ghost seen = scout_tally::<T, H>(begun.track.tally, o, chunk as int, scanned(le, o));
    proof {
        lemma_elem_le_total::<T>();
        lemma_natural::<T>();
    }
    let s: ScoutResult = scout(a, chunk, &mut scratch.tools.hooks);
    proof {
        lemma_no_commit(le, o);
        if n < SPLIT_MIN {
            assert forall|k: int| !#[trigger] stops_at(le, o, k) by {
                if 1 <= k < n {
                    assert(k % 1024 == k);
                }
            }
        }
        if sorted(le, o) {
            lemma_sorted_no_descents(le, o, n as int);
        }
    }
    proof {
        lemma_record::<H>(scratch.tools.hooks.tally(), seen);
        assert(trail(*scratch) == retold_trail(begun, seen));
        assert(s.committed == stops_early(o));
    }
    if !s.committed {
        if s.descents == 0 {
            scratch.tools.hooks.note_route(1);
            proof {
                lemma_no_descents(le, o, n as int);
                assert(o.take(n as int) =~= o);
            }
            return Ok(Round::Sorted);
        }
        if s.ascents == 0 {
            scratch.tools.hooks.note_route(2);
            stable_reverse(a, &s, &mut scratch.tools.hooks);
            proof {
                lemma_record::<H>(scratch.tools.hooks.tally(), reverse_tally::<T, H>(H::after(seen, Note::Route(2)), o));
                lemma_permutation_len(o, a@);
            }
            return Ok(Round::Sorted);
        }
        if s.tracking {
            scratch.tools.hooks.note_route(3);
            return match sort_few_runs(a, scratch, &s) {
                Ok(_) => {
                    proof {
                        lemma_record::<H>(scratch.tools.hooks.tally(), few_runs_tally::<T, H>(H::after(seen, Note::Route(3)), o));
                        let room = buffer_for::<T, H::Tally>(begun, (n / 2 + 1) as nat);
                        assert(trail(*scratch) == retold_trail(room, scratch.tools.hooks.tally()));
                    }
                    Ok(Round::Sorted)
                },
                Err(e) => Err(e),
            };
        }
        if s.descents <= n / 16 {
            scratch.tools.hooks.note_route(4);
            assert(Less::<T>::follows(&Natural, le));
            match sort_displaced(a, &Natural, &mut scratch.tools.mem, &mut scratch.tools.hooks) {
                Ok(done) => {
                    proof {
                        if scratch.refusals() == old(scratch).refusals() {
                            assert((done, trail(*scratch)) == near_end::<T, H>(begun, H::after(seen, Note::Route(4)), o));
                        }
                    }
                    if done {
                        proof {
                            lemma_permutation_len(o, a@);
                        }
                        return Ok(Round::Sorted);
                    }
                },
                Err(e) => {
                    return Err(e);
                },
            }
            scratch.tools.hooks.stat(Stat::Giveups, 1);
        }
    }
    let ghost here = trail(*scratch);
    scratch.tools.hooks.note_route(5);
    let ghost taking = trail(*scratch);
    assert(taking == retold_trail(here, H::after(here.track.tally, Note::Route(5))));
    let unordered = s.committed || s.descents > (n - 1) / 4;
    let chunked = T::chunked();
    proof {
        o[0].chunks_fit();
    }
    let ghost reach = route_end::<T, H>(taking, o, chunk, s.mask, s.has_mask, unordered, free && !chunked, digit_bits, scratch.tools.machine);
    let t: Routed = match radix_route(a, scratch, chunk, s.mask, s.has_mask, unordered, free && !chunked, digit_bits) {
        Ok(t) => t,
        Err(e) => {
            return Err(e);
        },
    };
    if !chunked {
        if t.in_src {
            proof {
                lemma_single_chunk(o, a@, t.chunk as int);
            }
            return Ok(Round::Sorted);
        }
        proof {
            lemma_single_chunk(o, scratch.buf@.take(n as int), t.chunk as int);
        }
        return Ok(Round::InBuffer);
    }
    let ghost b = a@;
    proof {
        lemma_chunk_ready_permutation(o, b, t.chunk as int);
        assert(b == reach.out);
        assert(t.chunk < CHUNKS);
    }
    match sort_groups(a, scratch, t.chunk, digit_bits) {
        Ok(g) => {
            proof {
                lemma_stable_trans(le, o, b, a@);
            }
            if g.len < 2 {
                Ok(Round::Sorted)
            } else {
                Ok(Round::Left { start: g.start, len: g.len, chunk: t.chunk + 1 })
            }
        },
        Err(e) => {
            proof {
                if n < SPLIT_MIN {
                    assert(permutation(o, a@));
                }
            }
            Err(e)
        },
    }
}

/// The rounds of a range: all but the largest group of ties are sorted by
/// recursion, the largest one by the next round.
#[verifier::rlimit(60)]
fn sort_rounds<T: Elem, M: Alloc, H: Hooks>(a: &mut [T], scratch: &mut Scratch<T, M, H>, chunk: u64, free: bool, digit_bits: u32) -> (r: Result<bool, AllocError>)
    requires
        old(scratch).base() >= 0,
        old(a)@.len() <= 0xFFFF_FFFF,
        chunk_ready(old(a)@, chunk as int),
        digit_bits == 0 || 8 <= digit_bits < 32,
    ensures
        keeps_counts(old(scratch).tools.hooks, final(scratch).tools.hooks),
        routed(old(scratch).tools.hooks, final(scratch).tools.hooks, old(a)@),
        in_runs(old(a)@) && old(scratch).buf@.len() <= old(a)@.len() / 2 ==> final(scratch).tools.mem.asked() == asks_for::<T>(old(scratch).tools.mem.asked(), old(a)@.len() / 2 + 1),
        in_runs(old(a)@) && old(scratch).buf@.len() <= old(a)@.len() / 2 && too_large::<T>(old(a)@.len() / 2 + 1) ==> r is Err,
        goes_down(old(scratch).tools.hooks, final(scratch).tools.hooks, log(2, old(a)@.len() as int) - 1),
        H::records() && 2 <= old(a)@.len() <= 0xFFFF_FFFF ==> looked_at(old(scratch).tools.hooks, final(scratch).tools.hooks, old(a)@.len() as int),
        r == Ok::<bool, AllocError>(true) ==> stable_sort_of(elem_le::<T>(), old(a)@, final(a)@),
        r == Ok::<bool, AllocError>(false) ==> free && old(a)@.len() <= final(scratch).buf@.len() && stable_sort_of(
            elem_le::<T>(),
            old(a)@,
            final(scratch).buf@.take(old(a)@.len() as int),
        ),
        at_ease(old(a)@) ==> r == Ok::<bool, AllocError>(true) && final(scratch).tools.mem == old(scratch).tools.mem,
        final(scratch).refusals() == old(scratch).refusals() ==> trail(*final(scratch)) == rounds_end::<T, H>(trail(*old(scratch)), old(a)@, chunk, free, digit_bits, old(scratch).tools.machine),
        r is Err ==> final(scratch).refusals() > old(scratch).refusals(),
        r is Err && old(a)@.len() < SPLIT_MIN ==> permutation(old(a)@, final(a)@),
        final(scratch).refusals() >= old(scratch).refusals(),
        final(scratch).base() == old(scratch).base(),
        final(a)@.len() == old(a)@.len(),
        final(scratch).tools.machine == old(scratch).tools.machine,
    decreases log(2, old(a)@.len() as int), 2int,
{
    let n: usize = a.len();
    let ghost o = a@;
    let ghost le = elem_le::<T>();
    let mut lo: usize = 0;
    let mut hi: usize = n;
    let mut at: u64 = chunk;
    let mut may_stay = free;
    if n < 2 {
        proof {
            reveal(rounds_end);
            lemma_elem_le_total::<T>();
        }
        return Ok(true);
    }
    proof {
        o[0].chunks_fit();
        assert(o.subrange(0, n as int) =~= o);
    }
    let ghost machine = scratch.tools.machine;
    let ghost whole = rounds_end::<T, H>(trail(*scratch), o, chunk, free, digit_bits, machine);
    loop
        invariant
            keeps_counts(old(scratch).tools.hooks, scratch.tools.hooks),
            goes_down(old(scratch).tools.hooks, scratch.tools.hooks, log(2, n as int) - 1),
            2 <= n == o.len() == a@.len() <= 0xFFFF_FFFF,
            o == old(a)@,
            le == elem_le::<T>(),
            lo + 2 <= hi <= n,
            at < 0x10_0000_0000,
            chunk_ready(a@.subrange(lo as int, hi as int), at as int),
            digit_bits == 0 || 8 <= digit_bits < 32,
            at == chunk ==> may_stay == free,
            may_stay ==> free && lo == 0 && hi == n && a@ == o,
            stable(le, o, a@),
            permutation(o, a@),
            sorted_outside(le, a@, lo as int, hi as int),
            scratch.refusals() >= old(scratch).refusals(),
            scratch.base() == old(scratch).base(),
            scratch.base() >= 0,
            scratch.tools.machine == old(scratch).tools.machine,
            machine == scratch.tools.machine,
            whole == rounds_end::<T, H>(trail(*old(scratch)), o, chunk, free, digit_bits, machine),
            scratch.refusals() == old(scratch).refusals() ==> whole == rounds_end::<T, H>(trail(*scratch), a@.subrange(lo as int, hi as int), at, may_stay, digit_bits, machine),
            at > chunk ==> H::records() ==> looked_at(old(scratch).tools.hooks, scratch.tools.hooks, n as int),
            at == chunk ==> lo == 0 && hi == n && *scratch == *old(scratch) && a@ == o,
            at > chunk ==> routed(old(scratch).tools.hooks, scratch.tools.hooks, o),
            at > chunk && H::records() ==> scratch.tools.hooks.route() != 0 || n <= INSERTION_MAX,
            in_runs(o) ==> at == chunk,
            at >= chunk,
            at_ease(o) ==> a@ == o && lo == 0 && hi == n && scratch.tools.mem == old(scratch).tools.mem,
        decreases 0x10_0000_0000 - at,
    {
        let ghost before = a@;
        let (x, rest) = a.split_at_mut(lo);
        let (mid, y) = rest.split_at_mut(hi - lo);
        let ghost m0 = mid@;
        proof {
            lemma_rounds_step::<T, H>(trail(*scratch), m0, at, may_stay, digit_bits, machine);
            assert(m0 =~= before.subrange(lo as int, hi as int));
            if lo == 0 && hi == n {
                assert(m0 =~= before);
            }
            lemma_log_is_ordered(2, hi - lo, n as int);
            lemma_log_nonnegative(2, hi - lo);
        }
        let round: Round = match sort_round(mid, scratch, at, may_stay, digit_bits) {
            Ok(t) => t,
            Err(e) => {
                proof {
                    let m = mid@;
                    assert(a@ =~= before.take(lo as int) + m + before.skip(hi as int));
                    if n < SPLIT_MIN {
                        assert(a@.subrange(lo as int, hi as int) =~= m);
                        lemma_stretch_permuted(o, before, a@, lo as int, hi as int);
                    }
                }
                return Err(e);
            },
        };
        let ghost m = mid@;
        assert(a@ =~= before.take(lo as int) + m + before.skip(hi as int));
        match round {
            Round::Sorted => {
                proof {
                    lemma_replace(le, o, before, lo as int, hi as int, m);
                    lemma_replace_outside(le, before, lo as int, hi as int, m);
                }
                return Ok(true);
            },
            Round::InBuffer => {
                proof {
                    assert(m0 =~= o);
                }
                return Ok(false);
            },
            Round::Left { start, len, chunk: next } => {
                proof {
                    lemma_replace(le, o, before, lo as int, hi as int, m);
                    lemma_replace_outside(le, before, lo as int, hi as int, m);
                    lemma_narrowed(le, a@, lo as int, hi as int, lo + start, lo + start + len);
                    assert(a@.subrange(lo + start, lo + start + len) =~= m.subrange(start as int, start + len));
                }
                hi = lo + start + len;
                lo = lo + start;
                at = next;
                may_stay = false;
            },
        }
    }
}

/// Sorts a range whose elements share the key chunks before `chunk`. Groups that
/// tie on a chunk are sorted on the next chunk; all but the largest group
/// recurse, each with at most half of the elements, so the recursion depth is at
/// most the logarithm of the length. With `free` (fixed keys only) the result may
/// stay in the scratch buffer; the return value says whether it is in `a`.
#[verifier::rlimit(40)]
pub fn sort_range<T: Elem, M: Alloc, H: Hooks>(a: &mut [T], scratch: &mut Scratch<T, M, H>, chunk: u64, free: bool, digit_bits: u32) -> (r: Result<bool, AllocError>)
    requires
        old(scratch).base() >= 0,
        old(a)@.len() <= 0xFFFF_FFFF,
        chunk_ready(old(a)@, chunk as int),
        digit_bits == 0 || 8 <= digit_bits < 32,
    ensures
        keeps_counts(old(scratch).tools.hooks, final(scratch).tools.hooks),
        routed(old(scratch).tools.hooks, final(scratch).tools.hooks, old(a)@),
        in_runs(old(a)@) && old(scratch).buf@.len() <= old(a)@.len() / 2 ==> final(scratch).tools.mem.asked() == asks_for::<T>(old(scratch).tools.mem.asked(), old(a)@.len() / 2 + 1),
        in_runs(old(a)@) && old(scratch).buf@.len() <= old(a)@.len() / 2 && too_large::<T>(old(a)@.len() / 2 + 1) ==> r is Err,
        goes_down(old(scratch).tools.hooks, final(scratch).tools.hooks, levels(old(a)@.len() as int)),
        H::records() && 2 <= old(a)@.len() <= 0xFFFF_FFFF ==> looked_at(old(scratch).tools.hooks, final(scratch).tools.hooks, old(a)@.len() as int),
        r == Ok::<bool, AllocError>(true) ==> stable_sort_of(elem_le::<T>(), old(a)@, final(a)@),
        r == Ok::<bool, AllocError>(false) ==> free && old(a)@.len() <= final(scratch).buf@.len() && stable_sort_of(
            elem_le::<T>(),
            old(a)@,
            final(scratch).buf@.take(old(a)@.len() as int),
        ),
        at_ease(old(a)@) ==> r == Ok::<bool, AllocError>(true) && final(scratch).tools.mem == old(scratch).tools.mem,
        final(scratch).refusals() == old(scratch).refusals() ==> trail(*final(scratch)) == range_end::<T, H>(trail(*old(scratch)), old(a)@, chunk, free, digit_bits, old(scratch).tools.machine),
        r is Err ==> final(scratch).refusals() > old(scratch).refusals(),
        r is Err && old(a)@.len() < SPLIT_MIN ==> permutation(old(a)@, final(a)@),
        final(scratch).refusals() >= old(scratch).refusals(),
        final(scratch).base() == old(scratch).base(),
        final(a)@.len() == old(a)@.len(),
        final(scratch).tools.machine == old(scratch).tools.machine,
    decreases log(2, old(a)@.len() as int), 3int,
{
    proof {
        reveal(rounds_end);
        let n = a@.len() as int;
        if n < 2 {
            lemma_log0(2, n);
        } else {
            lemma_log_s(2, n);
            lemma_log_nonnegative(2, n / 2);
        }
    }
    scratch.tools.hooks.enter_depth();
    let r = sort_rounds(a, scratch, chunk, free, digit_bits);
    scratch.tools.hooks.leave_depth();
    r
}

/// Sorts `a`. `digit_bits` 0 selects the digit width automatically. With `free`
/// the sorted elements may be left in the scratch buffer instead of being copied
/// back to `a` (a one-pass radix then saves that copy); the return value says
/// whether they are in `a`, and `scratch.buffer()` holds them otherwise.
#[verifier::rlimit(40)]
pub fn brainsort_impl<T: Elem, M: Alloc, H: Hooks>(a: &mut [T], scratch: &mut Scratch<T, M, H>, free: bool, digit_bits: u32) -> (r: Result<bool, AllocError>)
    requires
        old(scratch).base() >= 0,
        digit_bits == 0 || 8 <= digit_bits < 32,
    ensures
        keeps_counts(old(scratch).tools.hooks, final(scratch).tools.hooks),
        old(a)@.len() <= 0xFFFF_FFFF ==> routed(old(scratch).tools.hooks, final(scratch).tools.hooks, old(a)@),
        in_runs(old(a)@) && old(scratch).buf@.len() <= old(a)@.len() / 2 ==> final(scratch).tools.mem.asked() == asks_for::<T>(old(scratch).tools.mem.asked(), old(a)@.len() / 2 + 1),
        in_runs(old(a)@) && old(scratch).buf@.len() <= old(a)@.len() / 2 && too_large::<T>(old(a)@.len() / 2 + 1) ==> r is Err,
        old(a)@.len() <= 0xFFFF_FFFF ==> goes_down(old(scratch).tools.hooks, final(scratch).tools.hooks, levels(old(a)@.len() as int)),
        H::records() && 2 <= old(a)@.len() <= 0xFFFF_FFFF ==> looked_at(old(scratch).tools.hooks, final(scratch).tools.hooks, old(a)@.len() as int),
        r == Ok::<bool, AllocError>(true) ==> stable_sort_of(elem_le::<T>(), old(a)@, final(a)@),
        r == Ok::<bool, AllocError>(false) ==> free && old(a)@.len() <= final(scratch).buf@.len() && stable_sort_of(
            elem_le::<T>(),
            old(a)@,
            final(scratch).buf@.take(old(a)@.len() as int),
        ),
        at_ease(old(a)@) ==> r == Ok::<bool, AllocError>(true) && final(scratch).tools.mem == old(scratch).tools.mem,
        final(scratch).refusals() == old(scratch).refusals() ==> trail(*final(scratch)) == sort_end::<T, H>(trail(*old(scratch)), old(a)@, free, digit_bits, old(scratch).tools.machine),
        r is Err ==> final(scratch).refusals() > old(scratch).refusals(),
        r is Err && (old(a)@.len() < SPLIT_MIN || old(a)@.len() > 0xFFFF_FFFF) ==> permutation(old(a)@, final(a)@),
        final(scratch).refusals() >= old(scratch).refusals(),
        final(scratch).base() == old(scratch).base(),
        final(a)@.len() == old(a)@.len(),
{
    let n: usize = a.len();
    proof {
        reveal(sort_end);
    }
    if n < 2 {
        proof {
            lemma_elem_le_total::<T>();
        }
        return Ok(true);
    }
    let ghost o = a@;
    if n <= INSERTION_MAX {
        insertion_sort(a, &mut scratch.tools.hooks);
        proof {
            lemma_permutation_len(o, a@);
            lemma_record::<H>(scratch.tools.hooks.tally(), insertion_tally::<T, Natural, H>(&Natural, elem_le::<T>(), old(scratch).tools.hooks.tally(), o, n as int));
        }
        return Ok(true);
    }
    if n > 0xFFFF_FFFF {
        return match merge_sort(a, &mut scratch.tools.mem, &mut scratch.tools.hooks) {
            Ok(_) => {
                proof {
                    lemma_permutation_len(o, a@);
                }
                Ok(true)
            },
            Err(e) => Err(e),
        };
    }
    proof {
        assert forall|i: int| 0 <= i < a@.len() implies 0 < (#[trigger] a@[i]).chunks().len() by {
            a@[i].chunks_fit();
        }
    }
    sort_range(a, scratch, 0, free, digit_bits)
}

} // verus!
