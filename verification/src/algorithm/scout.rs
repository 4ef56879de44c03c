//! The scout pass: one linear pass over the keys that computes, at the same
//! time, the varying bits, the number of descents and ascents, and the monotone
//! runs with their exact bounds while there are at most four of them. It decides
//! the route.
use crate::algorithm::{COMMIT_BLOCK, MAX_RUNS};
use crate::algorithm::exec::{chunk_ready, lemma_varying_one, raw_within, varying, words_at};
use crate::bits::{agree_outside, lemma_agree_or, lemma_agree_through};
use crate::order::{sorted, total_preorder};
use crate::view::{
    agree_below, elem_le, gained, keeps_record, lemma_elem_le_total, note_compare, note_key, Elem,
    Hooks, Note, RadixKey,
};
use vstd::prelude::*;

verus! {

/// What the scout pass found.
#[derive(Clone, Copy, Debug)]
pub struct ScoutResult {
    /// The bits in which the keys seen differ from the first.
    pub mask: u64,
    /// `mask` covers every element (chunked keys compute it lazily).
    pub has_mask: bool,
    /// Stopped early: only the radix route is left.
    pub committed: bool,
    /// Descents: elements less than the one before.
    pub descents: usize,
    /// Ascents: elements greater than the one before.
    pub ascents: usize,
    /// Monotone runs (non-decreasing, or strictly decreasing), tracked exactly
    /// while there are at most `MAX_RUNS` of them: run `j` is
    /// `a[bound[j], bound[j+1])` with direction `dir[j]` (+1 non-decreasing, -1
    /// strictly decreasing). Once one more run starts, tracking stops and `runs`
    /// stays at `MAX_RUNS + 1`.
    pub runs: usize,
    /// Run bounds.
    pub bound: [usize; 5],
    /// Run directions.
    pub dir: [i8; 5],
    /// Runs are still being tracked.
    pub tracking: bool,
    /// Direction of the run in progress; 0 while it has one element.
    pub cur_dir: i8,
}

impl Default for ScoutResult {
    fn default() -> (r: Self)
        ensures
            r.mask == 0,
            !r.has_mask,
            !r.committed,
            r.descents == 0,
            r.ascents == 0,
            r.runs == 1,
            forall|j: int| 0 <= j < 5 ==> r.bound[j] == 0 && r.dir[j] == 0,
            r.tracking,
            r.cur_dir == 0,
    {
        ScoutResult {
            mask: 0,
            has_mask: false,
            committed: false,
            descents: 0,
            ascents: 0,
            runs: 1,
            bound: [0usize; 5],
            dir: [0i8; 5],
            tracking: true,
            cur_dir: 0,
        }
    }
}

/// Element `i` is less than the one before.
pub open spec fn descent<T>(le: spec_fn(T, T) -> bool, a: Seq<T>, i: int) -> bool {
    !le(a[i - 1], a[i])
}

/// Element `i` is greater than the one before.
pub open spec fn ascent<T>(le: spec_fn(T, T) -> bool, a: Seq<T>, i: int) -> bool {
    !le(a[i], a[i - 1])
}

/// The number of descents among the first `n` elements.
pub open spec fn descents_to<T>(le: spec_fn(T, T) -> bool, a: Seq<T>, n: int) -> int
    decreases n,
{
    if n <= 1 {
        0
    } else {
        descents_to(le, a, n - 1) + if descent(le, a, n - 1) {
            1int
        } else {
            0int
        }
    }
}

/// The number of ascents among the first `n` elements.
pub open spec fn ascents_to<T>(le: spec_fn(T, T) -> bool, a: Seq<T>, n: int) -> int
    decreases n,
{
    if n <= 1 {
        0
    } else {
        ascents_to(le, a, n - 1) + if ascent(le, a, n - 1) {
            1int
        } else {
            0int
        }
    }
}

/// `a[lo, hi)` has no descent.
pub open spec fn rising<T>(le: spec_fn(T, T) -> bool, a: Seq<T>, lo: int, hi: int) -> bool {
    forall|i: int| lo < i < hi ==> !#[trigger] descent(le, a, i)
}

/// `a[lo, hi)` descends at every step.
pub open spec fn falling<T>(le: spec_fn(T, T) -> bool, a: Seq<T>, lo: int, hi: int) -> bool {
    forall|i: int| lo < i < hi ==> #[trigger] descent(le, a, i)
}

/// Run `j` is monotone in its direction, has two elements or more, and ends
/// where its direction ends.
pub open spec fn closed_run<T>(le: spec_fn(T, T) -> bool, a: Seq<T>, lo: int, hi: int, dir: i8) -> bool {
    &&& lo + 2 <= hi
    &&& dir == 1 || dir == -1
    &&& dir == 1 ==> rising(le, a, lo, hi) && descent(le, a, hi)
    &&& dir == -1 ==> falling(le, a, lo, hi) && !descent(le, a, hi)
}

/// The runs of the first `n` elements while they are tracked.
pub open spec fn tracks<T>(le: spec_fn(T, T) -> bool, a: Seq<T>, n: int, r: ScoutResult) -> bool {
    &&& 1 <= r.runs <= MAX_RUNS
    &&& r.bound[0] == 0
    &&& forall|j: int| 0 <= j < r.runs - 1 ==> closed_run(le, a, (#[trigger] r.bound[j]) as int, r.bound[j + 1] as int, r.dir[j])
    &&& r.bound[r.runs - 1] < n
    &&& r.cur_dir == 0 ==> n == r.bound[r.runs - 1] + 1
    &&& r.cur_dir != 0 ==> n >= r.bound[r.runs - 1] + 2
    &&& r.cur_dir == 0 || r.cur_dir == 1 || r.cur_dir == -1
    &&& r.cur_dir == 1 ==> rising(le, a, r.bound[r.runs - 1] as int, n)
    &&& r.cur_dir == -1 ==> falling(le, a, r.bound[r.runs - 1] as int, n)
}

/// The runs of the whole sequence: all but the last are closed, the last
/// reaches the end.
pub open spec fn has_runs<T>(le: spec_fn(T, T) -> bool, a: Seq<T>, r: ScoutResult) -> bool {
    let last = r.runs - 1;
    &&& 1 <= r.runs <= MAX_RUNS
    &&& r.bound[0] == 0
    &&& r.bound[r.runs as int] == a.len()
    &&& forall|j: int| 0 <= j < last ==> closed_run(le, a, (#[trigger] r.bound[j]) as int, r.bound[j + 1] as int, r.dir[j])
    &&& r.bound[last] < a.len()
    &&& r.dir[last] == 1 || r.dir[last] == -1
    &&& r.dir[last] == 1 ==> rising(le, a, r.bound[last] as int, a.len() as int)
    &&& r.dir[last] == -1 ==> falling(le, a, r.bound[last] as int, a.len() as int) && r.bound[last] + 2 <= a.len()
}

/// Early commit to the radix route after `scanned` elements. Not a guess: the
/// sorted and the reverse route need one of the counts to be zero; the run route
/// needs at most `MAX_RUNS` runs; the displaced route gives up once the
/// displaced elements exceed scanned/8 + 64, and every descent displaces at
/// least one element.
pub fn commit_now(r: &ScoutResult, scanned: usize) -> (c: bool)
    requires
        scanned / 8 + 64 <= usize::MAX,
    ensures
        c == (r.ascents > 0 && !r.tracking && r.descents > scanned / 8 + 64),
{
    r.ascents > 0 && !r.tracking && r.descents > scanned / 8 + 64
}

/// Feeds the comparison of element `i` against element `i - 1` (`c < 0`:
/// descent, `c > 0`: ascent, 0: equal) into the run tracking.
pub fn track_pair(r: &mut ScoutResult, c: i32, i: usize)
    requires
        1 <= old(r).runs <= MAX_RUNS,
    ensures
        old(r).cur_dir == 0 ==> *final(r) == (ScoutResult {
            cur_dir: if c < 0 {
                -1i8
            } else {
                1i8
            },
            ..*old(r)
        }),
        old(r).cur_dir != 0 && (c < 0) == (old(r).cur_dir < 0) ==> *final(r) == *old(r),
        old(r).cur_dir != 0 && (c < 0) != (old(r).cur_dir < 0) && old(r).runs == MAX_RUNS ==> *final(r) == (ScoutResult { tracking: false, runs: (MAX_RUNS + 1) as usize, ..*old(r) }),
        old(r).cur_dir != 0 && (c < 0) != (old(r).cur_dir < 0) && old(r).runs < MAX_RUNS ==> {
            &&& final(r).runs == old(r).runs + 1
            &&& final(r).cur_dir == 0
            &&& final(r).tracking == old(r).tracking
            &&& final(r).dir@ == old(r).dir@.update(old(r).runs - 1, old(r).cur_dir)
            &&& final(r).bound@ == old(r).bound@.update(old(r).runs as int, i)
            &&& final(r).mask == old(r).mask && final(r).has_mask == old(r).has_mask && final(r).committed == old(r).committed
            &&& final(r).descents == old(r).descents && final(r).ascents == old(r).ascents
        },
{
    if r.cur_dir == 0 {
        r.cur_dir = if c < 0 {
            -1
        } else {
            1
        };
        return;
    }
    if (c < 0) != (r.cur_dir < 0) {
        if r.runs >= MAX_RUNS {
            r.tracking = false;
            r.runs = MAX_RUNS + 1;
            return;
        }
        let k: usize = r.runs;
        r.dir[k - 1] = r.cur_dir;
        r.bound[k] = i;
        r.runs = k + 1;
        r.cur_dir = 0;
    }
}

/// Tracking goes on with element `i`.
proof fn lemma_track<T>(le: spec_fn(T, T) -> bool, a: Seq<T>, i: int, r: ScoutResult, q: ScoutResult, c: i32)
    requires
        1 <= i < a.len(),
        tracks(le, a, i, r),
        (c < 0) == descent(le, a, i),
        q.tracking,
        r.cur_dir == 0 ==> q.runs == r.runs && q.bound == r.bound && q.dir == r.dir && q.cur_dir == if c < 0 {
            -1i8
        } else {
            1i8
        },
        r.cur_dir != 0 && (c < 0) == (r.cur_dir < 0) ==> q.runs == r.runs && q.bound == r.bound && q.dir == r.dir && q.cur_dir == r.cur_dir,
        r.cur_dir != 0 && (c < 0) != (r.cur_dir < 0) ==> r.runs < MAX_RUNS && q.runs == r.runs + 1 && q.cur_dir == 0 && q.dir@ == r.dir@.update(r.runs - 1, r.cur_dir) && q.bound@
            == r.bound@.update(r.runs as int, i as usize),
        a.len() <= usize::MAX,
    ensures
        tracks(le, a, i + 1, q),
{
    if r.cur_dir != 0 && (c < 0) != (r.cur_dir < 0) {
        assert forall|j: int| 0 <= j < q.runs - 1 implies closed_run(le, a, (#[trigger] q.bound[j]) as int, q.bound[j + 1] as int, q.dir[j]) by {
            if j < r.runs - 1 {
                assert(closed_run(le, a, r.bound[j] as int, r.bound[j + 1] as int, r.dir[j]));
            }
        }
    } else {
        assert forall|j: int| 0 <= j < q.runs - 1 implies closed_run(le, a, (#[trigger] q.bound[j]) as int, q.bound[j + 1] as int, q.dir[j]) by {
            assert(closed_run(le, a, r.bound[j] as int, r.bound[j + 1] as int, r.dir[j]));
        }
    }
}

/// Closes the last run.
pub fn finish_runs(r: &mut ScoutResult, n: usize)
    requires
        old(r).tracking ==> 1 <= old(r).runs <= MAX_RUNS,
    ensures
        !old(r).tracking ==> *final(r) == *old(r),
        old(r).tracking ==> {
            &&& final(r).bound@ == old(r).bound@.update(old(r).runs as int, n)
            &&& final(r).dir@ == old(r).dir@.update(
                old(r).runs - 1,
                if old(r).cur_dir < 0 {
                    -1i8
                } else {
                    1i8
                },
            )
            &&& final(r).runs == old(r).runs && final(r).tracking && final(r).cur_dir == old(r).cur_dir
            &&& final(r).mask == old(r).mask && final(r).has_mask == old(r).has_mask && final(r).committed == old(r).committed
            &&& final(r).descents == old(r).descents && final(r).ascents == old(r).ascents
        },
{
    if !r.tracking {
        return;
    }
    let k: usize = r.runs;
    r.dir[k - 1] = if r.cur_dir < 0 {
        -1
    } else {
        1
    };
    r.bound[k] = n;
}

/// The number of monotone runs among the first `n` elements, and the direction
/// of the last of them: 0 while it has one element.
pub open spec fn runs_to<T>(le: spec_fn(T, T) -> bool, a: Seq<T>, n: int) -> (int, int)
    decreases n,
{
    if n <= 1 {
        (1, 0)
    } else {
        let (runs, dir) = runs_to(le, a, n - 1);
        let step: int = if descent(le, a, n - 1) {
            -1
        } else {
            1
        };
        if dir == 0 {
            (runs, step)
        } else if dir == step {
            (runs, dir)
        } else {
            (runs + 1, 0)
        }
    }
}

/// The first `k + 1` elements leave only the radix route: they ascend somewhere,
/// they are no few runs, and more of them descend than the displaced-element
/// route takes.
pub open spec fn commits_at<T>(le: spec_fn(T, T) -> bool, a: Seq<T>, k: int) -> bool {
    &&& k % (COMMIT_BLOCK as int) == 0
    &&& ascents_to(le, a, k + 1) > 0
    &&& runs_to(le, a, k + 1).0 > MAX_RUNS
    &&& descents_to(le, a, k + 1) > k / 8 + 64
}

/// The pass stops early after element `k`.
pub open spec fn stops_at<T>(le: spec_fn(T, T) -> bool, a: Seq<T>, k: int) -> bool {
    &&& 1 <= k < a.len()
    &&& commits_at(le, a, k)
    &&& forall|j: int| 1 <= j < k ==> !#[trigger] commits_at(le, a, j)
}

/// The bits that vary in the keys that the pass looks at; chunked keys compute them
/// later.
pub open spec fn scout_mask<T: Elem>(a: Seq<T>, c: int) -> u64 {
    if T::has_chunks() {
        0
    } else {
        varying(words_at(a, c), scanned(elem_le::<T>(), a))
    }
}

/// What a finished scout pass says of the range at chunk `c`.
pub open spec fn scouted<T: Elem>(a: Seq<T>, c: int, r: ScoutResult) -> bool {
    let le = elem_le::<T>();
    &&& r.mask == scout_mask(a, c)
    &&& r.has_mask ==> raw_within(a, c, r.mask)
    &&& r.has_mask <==> !r.committed && !T::has_chunks()
    &&& r.has_mask ==> r.mask == varying(words_at(a, c), a.len() as int)
    &&& r.committed <==> exists|k: int| #[trigger] stops_at(le, a, k)
    &&& r.committed ==> exists|k: int|
        #[trigger] stops_at(le, a, k) && r.descents == descents_to(le, a, k + 1) && r.ascents == ascents_to(le, a, k + 1) && (!T::has_chunks() ==> r.mask == varying(words_at(a, c), k + 1))
    &&& r.tracking <==> !r.committed && runs_to(le, a, a.len() as int).0 <= MAX_RUNS
    &&& r.committed ==> r.ascents > 0 && r.descents > 0
    &&& !r.committed ==> r.descents == descents_to(le, a, a.len() as int)
    &&& !r.committed ==> r.ascents == ascents_to(le, a, a.len() as int)
    &&& !r.committed && r.tracking ==> has_runs(le, a, r)
}

/// So many elements are looked at in any case: all of them, or those up to the
/// first time that the pass may stop.
pub open spec fn least_scanned(n: int) -> int {
    if n <= COMMIT_BLOCK {
        n
    } else {
        COMMIT_BLOCK + 1
    }
}

/// So many elements are looked at: all of them, or those up to the one that the
/// pass stops after.
pub open spec fn scanned<T>(le: spec_fn(T, T) -> bool, a: Seq<T>) -> int {
    if exists|k: int| #[trigger] stops_at(le, a, k) {
        (choose|k: int| #[trigger] stops_at(le, a, k)) + 1
    } else {
        a.len() as int
    }
}

/// The record once the pass has looked at the first `i` elements: each was read,
/// with its key where that is one chunk, and compared with the one before.
pub open spec fn scout_tally<T: Elem, H: Hooks>(t: H::Tally, a: Seq<T>, c: int, i: int) -> H::Tally
    decreases i,
{
    if i <= 1 {
        H::after(H::after(t, Note::Read), Note::Key(a[0].key_load(c) as u64))
    } else {
        let seen = H::after(scout_tally::<T, H>(t, a, c, i - 1), Note::Read);
        let keyed = if T::has_chunks() {
            seen
        } else {
            H::after(seen, Note::Key(a[i - 1].key_load(c) as u64))
        };
        H::after(H::after(keyed, Note::Key(a[i - 1].compare_load(&a[i - 2], c) as u64)), Note::Compare(descent(elem_le::<T>(), a, i - 1)))
    }
}

/// Scalar scout pass: one three-way comparison per element, from the chunk on
/// that the elements do not share.
pub fn scout_scalar<T: Elem, H: Hooks>(a: &[T], chunk: u64, hooks: &mut H) -> (r: ScoutResult)
    requires
        0 < a@.len() <= 0xFFFF_FFFF,
        chunk_ready(a@, chunk as int),
    ensures
        keeps_record(*old(hooks), *final(hooks)),
        H::records() ==> gained(old(hooks).reads(), final(hooks).reads(), least_scanned(a@.len() as int)) && gained(old(hooks).compares(), final(hooks).compares(), least_scanned(a@.len() as int) - 1),
        scouted(a@, chunk as int, r),
        H::records() ==> final(hooks).tally() == scout_tally::<T, H>(old(hooks).tally(), a@, chunk as int, scanned(elem_le::<T>(), a@)),
{
    let n: usize = a.len();
    let ghost le = elem_le::<T>();
    let ghost c = chunk as int;
    let ghost s = a@;
    let mut r = ScoutResult::default();
    let mut prev: T = a[0];
    let k0: u64 = T::radix_key(prev, chunk).to_u64();
    hooks.on_read(a, 0);
    note_key(prev, chunk, hooks);
    let chunked = T::chunked();
    let mut desc: usize = 0;
    let mut asc: usize = 0;
    let mut mask: u64 = 0;
    let mut i: usize = 1;
    let ghost ks = words_at(s, c);
    proof {
        lemma_agree_or(k0, k0, 0, 0);
        lemma_elem_le_total::<T>();
        lemma_varying_one(ks);
    }
    while i < n
        invariant
            keeps_record(*old(hooks), *hooks),
            1 <= i <= n == s.len(),
            s == a@,
            n <= 0xFFFF_FFFF,
            c == chunk,
            chunk_ready(s, c),
            le == elem_le::<T>(),
            prev == s[i - 1],
            desc == descents_to(le, s, i as int),
            asc == ascents_to(le, s, i as int),
            desc < i,
            asc < i,
            !r.has_mask,
            !r.committed,
            H::records() ==> gained(old(hooks).reads(), hooks.reads(), i as int) && gained(old(hooks).compares(), hooks.compares(), i - 1),
            H::records() ==> hooks.tally() == scout_tally::<T, H>(old(hooks).tally(), s, c, i as int),
            r.tracking ==> tracks(le, s, i as int, r),
            r.tracking <==> runs_to(le, s, i as int).0 <= MAX_RUNS,
            r.tracking ==> runs_to(le, s, i as int) == (r.runs as int, r.cur_dir as int),
            forall|j: int| 1 <= j < i ==> !#[trigger] commits_at(le, s, j),
            chunked == T::has_chunks(),
            ks == words_at(s, c),
            k0 == ks[0],
            !chunked ==> mask == varying(ks, i as int),
            chunked ==> mask == 0,
            !chunked ==> forall|k: int| 0 <= k < i ==> agree_outside((#[trigger] s[k]).chunks()[c], k0, mask),
        decreases n - i,
    {
        let cur: T = a[i];
        hooks.on_read(a, i);
        if !chunked {
            note_key(cur, chunk, hooks);
            let k: u64 = T::radix_key(cur, chunk).to_u64();
            proof {
                lemma_agree_or(k, k0, mask, 0);
                assert forall|j: int| 0 <= j < i implies agree_outside((#[trigger] s[j]).chunks()[c], k0, mask | (k ^ k0)) by {
                    lemma_agree_or(s[j].chunks()[c], k0, mask, k ^ k0);
                }
            }
            assert(ks[i as int] == k);
            mask = mask | (k ^ k0);
        }
        assert(agree_below(s[i as int].chunks(), s[i - 1].chunks(), c));
        let cv: i32 = T::compare_from(cur, prev, chunk);
        note_compare(cur, prev, chunk, cv < 0, hooks);
        assert((cv < 0) == descent(le, s, i as int));
        assert((cv > 0) == ascent(le, s, i as int));
        if cv < 0 {
            desc += 1;
        }
        if cv > 0 {
            asc += 1;
        }
        if r.tracking {
            let ghost before = r;
            track_pair(&mut r, cv, i);
            proof {
                if r.tracking {
                    lemma_track(le, s, i as int, before, r, cv);
                }
            }
        }
        prev = cur;
        if i % COMMIT_BLOCK == 0 {
            r.descents = desc;
            r.ascents = asc;
            if commit_now(&r, i) {
                r.mask = mask;
                r.committed = true;
                assert(commits_at(le, s, i as int));
                assert(stops_at(le, s, i as int));
                proof {
                    let k = choose|k: int| #[trigger] stops_at(le, s, k);
                    assert(k == i);
                }
                return r;
            }
        }
        i += 1;
    }
    r.descents = desc;
    r.ascents = asc;
    r.mask = mask;
    r.has_mask = !chunked;
    proof {
        if !chunked {
            assert forall|i: int, j: int| 0 <= i < s.len() && 0 <= j < s.len() implies agree_outside((#[trigger] s[i]).chunks()[c], (#[trigger] s[j]).chunks()[c], mask) by {
                lemma_agree_through(s[i].chunks()[c], s[j].chunks()[c], k0, mask);
            }
        }
    }
    let ghost before = r;
    finish_runs(&mut r, n);
    proof {
        if r.tracking {
            assert forall|j: int| 0 <= j < r.runs - 1 implies closed_run(le, s, (#[trigger] r.bound[j]) as int, r.bound[j + 1] as int, r.dir[j]) by {
                assert(closed_run(le, s, before.bound[j] as int, before.bound[j + 1] as int, before.dir[j]));
            }
        }
    }
    r
}

/// The record once the chunk `c` of the first `i` elements was looked at.
pub open spec fn mask_tally<T: Elem, H: Hooks>(t: H::Tally, s: Seq<T>, c: int, i: int) -> H::Tally
    decreases i,
{
    if i <= 0 {
        t
    } else {
        H::after(H::after(mask_tally::<T, H>(t, s, c, i - 1), Note::Read), Note::Key(s[i - 1].key_load(c) as u64))
    }
}

/// The varying-bit mask alone, for chunked keys that reach the radix route.
pub fn compute_mask<T: Elem, H: Hooks>(a: &[T], chunk: u64, hooks: &mut H) -> (mask: u64)
    requires
        a@.len() > 0,
        chunk_ready(a@, chunk as int),
    ensures
        keeps_record(*old(hooks), *final(hooks)),
        H::records() ==> final(hooks).tally() == mask_tally::<T, H>(old(hooks).tally(), a@, chunk as int, a@.len() as int),
        raw_within(a@, chunk as int, mask),
        mask == varying(words_at(a@, chunk as int), a@.len() as int),
{
    let n: usize = a.len();
    let ghost c = chunk as int;
    let ghost ks = words_at(a@, c);
    let k0: u64 = T::radix_key(a[0], chunk).to_u64();
    let mut mask: u64 = 0;
    let mut i: usize = 0;
    while i < n
        invariant
            keeps_record(*old(hooks), *hooks),
            H::records() ==> hooks.tally() == mask_tally::<T, H>(old(hooks).tally(), a@, c, i as int),
            i <= n == a@.len(),
            n > 0,
            c == chunk,
            chunk_ready(a@, c),
            ks == words_at(a@, c),
            k0 == ks[0],
            mask == varying(ks, i as int),
            forall|k: int| 0 <= k < i ==> agree_outside((#[trigger] a@[k]).chunks()[c], k0, mask),
        decreases n - i,
    {
        let k: u64 = T::radix_key(a[i], chunk).to_u64();
        hooks.on_read(a, i);
        note_key(a[i], chunk, hooks);
        proof {
            assert(ks[i as int] == k);
            lemma_agree_or(k, k0, mask, 0);
            assert forall|j: int| 0 <= j < i implies agree_outside((#[trigger] a@[j]).chunks()[c], k0, mask | (k ^ k0)) by {
                lemma_agree_or(a@[j].chunks()[c], k0, mask, k ^ k0);
            }
        }
        mask = mask | (k ^ k0);
        i += 1;
    }
    proof {
        assert forall|i: int, j: int| 0 <= i < a@.len() && 0 <= j < a@.len() implies agree_outside((#[trigger] a@[i]).chunks()[c], (#[trigger] a@[j]).chunks()[c], mask) by {
            lemma_agree_through(a@[i].chunks()[c], a@[j].chunks()[c], k0, mask);
        }
    }
    mask
}

/// The scout pass.
pub fn scout<T: Elem, H: Hooks>(a: &[T], chunk: u64, hooks: &mut H) -> (r: ScoutResult)
    requires
        0 < a@.len() <= 0xFFFF_FFFF,
        chunk_ready(a@, chunk as int),
    ensures
        keeps_record(*old(hooks), *final(hooks)),
        H::records() ==> gained(old(hooks).reads(), final(hooks).reads(), least_scanned(a@.len() as int)) && gained(old(hooks).compares(), final(hooks).compares(), least_scanned(a@.len() as int) - 1),
        scouted(a@, chunk as int, r),
        H::records() ==> final(hooks).tally() == scout_tally::<T, H>(old(hooks).tally(), a@, chunk as int, scanned(elem_le::<T>(), a@)),
{
    scout_scalar(a, chunk, hooks)
}

/// The counts never go down.
pub proof fn lemma_counts_grow<T>(le: spec_fn(T, T) -> bool, a: Seq<T>, m: int, n: int)
    requires
        0 <= m <= n,
    ensures
        descents_to(le, a, m) <= descents_to(le, a, n),
        ascents_to(le, a, m) <= ascents_to(le, a, n),
    decreases n - m,
{
    if m < n {
        lemma_counts_grow(le, a, m, n - 1);
    }
}

/// Where nothing ascends, or nothing descends, the pass does not stop early.
pub proof fn lemma_no_commit<T>(le: spec_fn(T, T) -> bool, a: Seq<T>)
    ensures
        descents_to(le, a, a.len() as int) == 0 || ascents_to(le, a, a.len() as int) == 0 ==> !exists|k: int| #[trigger] stops_at(le, a, k),
{
    assert forall|k: int| #[trigger] stops_at(le, a, k) implies descents_to(le, a, a.len() as int) > 0 && ascents_to(le, a, a.len() as int) > 0 by {
        lemma_counts_grow(le, a, k + 1, a.len() as int);
    }
}

/// Sorted elements do not descend.
pub proof fn lemma_sorted_no_descents<T>(le: spec_fn(T, T) -> bool, a: Seq<T>, n: int)
    requires
        0 <= n <= a.len(),
        sorted(le, a),
    ensures
        descents_to(le, a, n) == 0,
    decreases n,
{
    if n > 1 {
        lemma_sorted_no_descents(le, a, n - 1);
        assert(le(a[n - 2], a[n - 1]));
    }
}

/// No descent: sorted.
pub proof fn lemma_no_descents<T>(le: spec_fn(T, T) -> bool, a: Seq<T>, n: int)
    requires
        total_preorder(le),
        0 <= n <= a.len(),
        descents_to(le, a, n) == 0,
    ensures
        sorted(le, a.take(n)),
    decreases n,
{
    if n > 1 {
        lemma_descents_nonneg(le, a, n - 1);
        lemma_no_descents(le, a, n - 1);
        assert(le(a[n - 2], a[n - 1]));
        let t = a.take(n);
        assert forall|i: int, j: int| 0 <= i <= j < t.len() implies le(#[trigger] t[i], #[trigger] t[j]) by {
            let u = a.take(n - 1);
            if j < n - 1 {
                assert(le(u[i], u[j]));
            } else if i < n - 1 {
                assert(le(u[i], u[n - 2]));
                assert(le(a[i], a[n - 2]) && le(a[n - 2], a[n - 1]));
            } else {
                assert(le(a[i], a[i]));
            }
        }
    } else {
        assert(forall|x: T| #[trigger] le(x, x));
    }
}

pub proof fn lemma_descents_nonneg<T>(le: spec_fn(T, T) -> bool, a: Seq<T>, n: int)
    ensures
        descents_to(le, a, n) >= 0,
        n >= 1 ==> descents_to(le, a, n) <= n - 1,
    decreases n,
{
    if n > 1 {
        lemma_descents_nonneg(le, a, n - 1);
    }
}

pub proof fn lemma_ascents_nonneg<T>(le: spec_fn(T, T) -> bool, a: Seq<T>, n: int)
    ensures
        ascents_to(le, a, n) >= 0,
    decreases n,
{
    if n > 1 {
        lemma_ascents_nonneg(le, a, n - 1);
    }
}

/// No ascent: every element is not greater than those before it.
pub proof fn lemma_no_ascents<T>(le: spec_fn(T, T) -> bool, a: Seq<T>, n: int)
    requires
        total_preorder(le),
        0 <= n <= a.len(),
        ascents_to(le, a, n) == 0,
    ensures
        forall|i: int, j: int| 0 <= i <= j < n ==> le(#[trigger] a[j], #[trigger] a[i]),
    decreases n,
{
    if n > 1 {
        lemma_ascents_nonneg(le, a, n - 1);
        lemma_no_ascents(le, a, n - 1);
        assert(le(a[n - 1], a[n - 2]));
        assert forall|i: int, j: int| 0 <= i <= j < n implies le(#[trigger] a[j], #[trigger] a[i]) by {
            if j == n - 1 && i < j {
                assert(le(a[n - 2], a[i]));
                assert(le(a[n - 1], a[n - 2]) && le(a[n - 2], a[i]));
            } else if i == j {
                assert(le(a[i], a[i]));
            }
        }
    } else {
        assert(forall|x: T| #[trigger] le(x, x));
    }
}

} // verus!
