//! What the sorts read, write and compare, as the watch over them counts it.
use crate::algorithm::{first_route, sort_end};
use crate::algorithm::dict::{dict_count_tally, dict_scatter_tally};
use crate::algorithm::exec::count_tally;
use crate::algorithm::laws::{sorting_a_few_runs, sorting_the_reversed, sorting_the_sorted};
use crate::algorithm::monotone::reverse_tally;
use crate::algorithm::partition::partition_tally;
use crate::algorithm::radix_route::{backward_split, forward_split, sample_tally};
use crate::algorithm::runs::{backward_tally, forward_tally, merge_tally};
use crate::algorithm::scout::{
    ascents_to, descent, descents_to, lemma_no_commit, mask_tally, scout_tally, stops_at,
};
use crate::bench::{Item, Item2, StrItem};
use crate::bench::counted::{run_end, run_start};
use crate::bench::watch::{Tally, TraceHooks};
use crate::bits::lemma_pow2_32;
use crate::cpu::usual_machine;
use crate::key::slots::SLOT_MAX;
use crate::laws::comparisons_look_up_to_the_difference;
use crate::less::{insertion_tally, notes_of, place_tally, placed_to, Less, Natural};
use crate::mergesort::{block_end, blocks_tally, merging_tally};
use crate::radix::{passed, passes_tally, scatter_tally, DigitPlan, KeyFn};
use crate::view::{
    after_copies, after_swaps, arrays_take_their_bytes, elem_le, lemma_elem_le_total, lemma_no_space,
    lemma_told_two, told, too_large, Elem, Hooks, Note, Stat,
};
use vstd::arithmetic::power2::pow2;
use vstd::prelude::*;

verus! {

/// Between the two records lie so many element reads, element writes and comparisons.
pub open spec fn between(t: Tally, u: Tally, reads: int, writes: int, compares: int) -> bool {
    &&& u.traffic.reads == t.traffic.reads + reads
    &&& u.traffic.writes == t.traffic.writes + writes
    &&& u.counters.compares == t.counters.compares + compares
}

/// Between the two records lie so many reads and writes of table entries, of `bytes`
/// bytes in all.
pub open spec fn tables_between(t: Tally, u: Tally, reads: int, writes: int, bytes: int) -> bool {
    &&& u.traffic.table_reads == t.traffic.table_reads + reads
    &&& u.traffic.table_writes == t.traffic.table_writes + writes
    &&& u.traffic.table_bytes == t.traffic.table_bytes + bytes
}

/// The counts of elements are far from their limits.
pub open spec fn has_room(t: Tally, used: int) -> bool {
    &&& t.traffic.reads + used <= 0x7FFF_FFFF_FFFF_FFFF
    &&& t.traffic.writes + used <= 0x7FFF_FFFF_FFFF_FFFF
    &&& t.counters.compares + used <= 0x7FFF_FFFF_FFFF_FFFF
}

/// The counts of tables are far from their limits.
pub open spec fn has_table_room(t: Tally, used: int) -> bool {
    &&& t.traffic.table_reads + used <= 0x7FFF_FFFF_FFFF_FFFF
    &&& t.traffic.table_writes + used <= 0x7FFF_FFFF_FFFF_FFFF
    &&& t.traffic.table_bytes + used <= 0x7FFF_FFFF_FFFF_FFFF
}

// ---- moves ---------------------------------------------------------------------------------------

/// Copying an element reads it once and writes it once.
pub proof fn copies_read_and_write_once(t: Tally, k: int)
    requires
        0 <= k,
        has_room(t, k),
    ensures
        between(t, after_copies::<TraceHooks>(t, k), k, k, 0),
        tables_between(t, after_copies::<TraceHooks>(t, k), 0, 0, 0),
        after_copies::<TraceHooks>(t, k).traffic.key_bytes == t.traffic.key_bytes,
        after_copies::<TraceHooks>(t, k).stats == t.stats,
    decreases k,
{
    if k > 0 {
        copies_read_and_write_once(t, k - 1);
    }
}

/// Two elements that change places are both read and both written.
pub proof fn swaps_read_and_write_twice(t: Tally, k: int)
    requires
        0 <= k,
        has_room(t, 2 * k),
    ensures
        between(t, after_swaps::<TraceHooks>(t, k), 2 * k, 2 * k, 0),
        tables_between(t, after_swaps::<TraceHooks>(t, k), 0, 0, 0),
        after_swaps::<TraceHooks>(t, k).traffic.key_bytes == t.traffic.key_bytes,
        after_swaps::<TraceHooks>(t, k).stats == t.stats,
    decreases k,
{
    if k > 0 {
        swaps_read_and_write_twice(t, k - 1);
    }
}

// ---- passes --------------------------------------------------------------------------------------

/// A scatter pass reads and writes every element once. It sweeps its table, and then
/// an element reads and writes one entry of four bytes; with the next table counted on
/// the way, that one is cleared and an element reads and writes an entry of it too.
pub proof fn scatters_read_and_write_once<T: Elem>(t: Tally, s: Seq<T>, c: int, size: usize, fused: bool, width: usize, i: int)
    requires
        0 <= i <= 0xFFFF_FFFF,
        size <= 0xFFFF_FFFF,
        width <= 0xFFFF_FFFF,
        has_room(t, i),
        has_table_room(t, 0x100_0000_0000),
    ensures
        between(t, scatter_tally::<T, TraceHooks>(t, s, c, size, fused, width, i), i, i, 0),
        !fused ==> tables_between(t, scatter_tally::<T, TraceHooks>(t, s, c, size, fused, width, i), size + i, size + i, 8 * (size + i)),
        fused ==> tables_between(t, scatter_tally::<T, TraceHooks>(t, s, c, size, fused, width, i), size + 2 * i, size + width + 2 * i, 8 * size + 4 * width + 16 * i),
        scatter_tally::<T, TraceHooks>(t, s, c, size, fused, width, i).stats == t.stats,
    decreases i,
{
    if i > 0 {
        scatters_read_and_write_once(t, s, c, size, fused, width, i - 1);
    }
}

/// Counting a digit clears the table, reads every element once and writes none; an
/// element reads and writes one entry. Where the keys are measured the first element
/// is read once more.
pub proof fn counting_reads_once<T: Elem>(t: Tally, s: Seq<T>, c: int, width: usize, measure: bool, i: int)
    requires
        0 <= i <= 0xFFFF_FFFF,
        width <= 0xFFFF_FFFF,
        has_room(t, i + 1),
        has_table_room(t, 0x100_0000_0000),
    ensures
        between(
            t,
            count_tally::<T, TraceHooks>(t, s, c, width, measure, i),
            if measure {
                i + 1
            } else {
                i
            },
            0,
            0,
        ),
        tables_between(t, count_tally::<T, TraceHooks>(t, s, c, width, measure, i), i, width + i, 4 * width + 8 * i),
    decreases i,
{
    if i > 0 {
        counting_reads_once(t, s, c, width, measure, i - 1);
    }
}

/// The pass that looks at the order reads every element once, compares it with the one
/// before, and writes none.
pub proof fn scouts_read_once<T: Elem>(t: Tally, a: Seq<T>, c: int, i: int)
    requires
        1 <= i,
        has_room(t, i),
    ensures
        between(t, scout_tally::<T, TraceHooks>(t, a, c, i), i, 0, i - 1),
        tables_between(t, scout_tally::<T, TraceHooks>(t, a, c, i), 0, 0, 0),
    decreases i,
{
    if i > 1 {
        scouts_read_once(t, a, c, i - 1);
    }
}

/// The pass that looks for varying bits reads every element once, compares none and
/// writes none.
pub proof fn masks_read_once<T: Elem>(t: Tally, s: Seq<T>, c: int, i: int)
    requires
        0 <= i,
        has_room(t, i),
    ensures
        between(t, mask_tally::<T, TraceHooks>(t, s, c, i), i, 0, 0),
    decreases i,
{
    if i > 0 {
        masks_read_once(t, s, c, i - 1);
    }
}

/// A sample reads an element for each key, the first of them twice.
pub proof fn samples_read_once<T: Elem>(t: Tally, a: Seq<T>, c: int, i: int)
    requires
        1 <= i,
        has_room(t, i + 1),
    ensures
        between(t, sample_tally::<T, TraceHooks>(t, a, c, i), i + 1, 0, 0),
    decreases i,
{
    if i > 1 {
        samples_read_once(t, a, c, i - 1);
    }
}

/// A scatter by a dictionary reads and writes every element once, and an entry for
/// each.
pub proof fn dictionary_scatters_read_and_write_once<T: Elem>(t: Tally, s: Seq<T>, c: int, i: int)
    requires
        0 <= i <= 0xFFFF_FFFF,
        has_room(t, i),
        has_table_room(t, 0x100_0000_0000),
    ensures
        between(t, dict_scatter_tally::<T, TraceHooks>(t, s, c, i), i, i, 0),
        tables_between(t, dict_scatter_tally::<T, TraceHooks>(t, s, c, i), i, i, 8 * i),
    decreases i,
{
    if i > 0 {
        dictionary_scatters_read_and_write_once(t, s, c, i - 1);
    }
}

/// Counting for a dictionary reads every element once and the first one twice; an
/// element reads and writes its count and the key of its entry.
pub proof fn dictionary_counts_read_once<T: Elem>(t: Tally, s: Seq<T>, c: int, nb: usize, bytes: usize, i: int)
    requires
        0 <= i <= 0xFFFF_FFFF,
        nb <= 0xFFFF_FFFF,
        bytes <= 8,
        has_room(t, i + 1),
        has_table_room(t, 0x100_0000_0000),
    ensures
        between(t, dict_count_tally::<T, TraceHooks>(t, s, c, nb, bytes, i), i + 1, 0, 0),
        tables_between(t, dict_count_tally::<T, TraceHooks>(t, s, c, nb, bytes, i), 2 * i, nb + 2 * i, 4 * nb + 8 * i + 2 * bytes * i),
    decreases i,
{
    assert(2 * bytes * i <= 16 * i) by (nonlinear_arith)
        requires
            bytes <= 8,
            0 <= i,
    ;
    if i > 0 {
        dictionary_counts_read_once(t, s, c, nb, bytes, i - 1);
        assert(2 * bytes * i == 2 * bytes * (i - 1) + 2 * bytes) by (nonlinear_arith);
        assert(2 * bytes * (i - 1) >= 0) by (nonlinear_arith)
            requires
                i >= 1,
        ;
    }
}

/// A partition reads every element once, and writes it once, or twice while both sides
/// are open; it compares none.
pub proof fn partitions_read_once<T: Elem>(t: Tally, s: Seq<T>, c: int, k: u64, i: int, l: int, g: int) -> (twice: int)
    requires
        0 <= i <= s.len(),
        has_room(t, 2 * (s.len() - i)),
    ensures
        0 <= twice <= s.len() - i,
        l <= 0 || g <= 0 ==> twice == 0,
        between(t, partition_tally::<T, TraceHooks>(t, s, c, k, i, l, g), s.len() - i, s.len() - i + twice, 0),
        tables_between(t, partition_tally::<T, TraceHooks>(t, s, c, k, i, l, g), 0, 0, 0),
    decreases s.len() - i,
{
    if i >= s.len() {
        0
    } else {
        let seen = TraceHooks::after(TraceHooks::after(TraceHooks::after(t, Note::Read), Note::Key(s[i].key_load(c) as u64)), Note::Write);
        let next = if l > 0 && g > 0 {
            TraceHooks::after(seen, Note::Write)
        } else {
            seen
        };
        let rest = if s[i].chunks()[c] < k {
            partitions_read_once(next, s, c, k, i + 1, l - 1, g)
        } else {
            partitions_read_once(next, s, c, k, i + 1, l, g - 1)
        };
        if l > 0 && g > 0 {
            rest + 1
        } else {
            rest
        }
    }
}

/// A split from the front whose buffer has room for all reads and writes every element
/// once and compares none.
pub proof fn forward_splits_read_and_write_once<T: Elem>(t: Tally, s: Seq<T>, c: int, pk: u64, cap: int, i: int, b: int)
    requires
        0 <= i <= s.len(),
        b + (s.len() - i) <= cap,
        has_room(t, s.len() - i),
    ensures
        between(t, forward_split::<T, TraceHooks>(t, s, c, pk, cap, i, b), s.len() - i, s.len() - i, 0),
    decreases s.len() - i,
{
    if i < s.len() {
        let seen = TraceHooks::after(TraceHooks::after(TraceHooks::after(t, Note::Read), Note::Key(s[i].key_load(c) as u64)), Note::Write);
        forward_splits_read_and_write_once(
            seen,
            s,
            c,
            pk,
            cap,
            i + 1,
            if s[i].chunks()[c] < pk {
                b
            } else {
                b + 1
            },
        );
    }
}

/// A split from the back whose buffer has room for all reads and writes every element
/// once and compares none.
pub proof fn backward_splits_read_and_write_once<T: Elem>(t: Tally, s: Seq<T>, c: int, pk: u64, cap: int, i: int, b: int)
    requires
        0 <= i <= s.len(),
        b >= i,
        has_room(t, i),
    ensures
        between(t, backward_split::<T, TraceHooks>(t, s, c, pk, cap, i, b), i, i, 0),
    decreases i,
{
    if i > 0 {
        let seen = TraceHooks::after(TraceHooks::after(TraceHooks::after(t, Note::Read), Note::Key(s[i - 1].key_load(c) as u64)), Note::Write);
        backward_splits_read_and_write_once(
            seen,
            s,
            c,
            pk,
            cap,
            i - 1,
            if s[i - 1].chunks()[c] >= pk {
                b
            } else {
                b - 1
            },
        );
    }
}

// ---- comparisons ---------------------------------------------------------------------------------

proof fn lemma_compare<T: Elem>(t: Tally, a: T, b: T, less: bool)
    requires
        t.counters.compares < u64::MAX,
    ensures
        between(t, told::<TraceHooks>(t, Less::<T>::notes(&Natural, a, b, less)), 0, 0, 1),
{
    lemma_told_two::<TraceHooks>(t, Note::Key(a.compare_load(&b, 0) as u64), Note::Compare(less));
}

proof fn lemma_place<T: Elem>(t: Tally, p: Seq<T>, v: T, j: int)
    requires
        0 <= j,
        has_room(t, j),
    ensures
        ({
            let u = place_tally::<T, Natural, TraceHooks>(&Natural, elem_le::<T>(), t, p, v, j);
            let k = u.counters.compares - t.counters.compares;
            &&& 0 <= k <= j
            &&& j > 0 ==> k > 0
            &&& u.traffic.reads == t.traffic.reads + k
            &&& k - 1 <= u.traffic.writes - t.traffic.writes <= k
            &&& u.traffic.writes >= t.traffic.writes
            &&& j > 0 && elem_le::<T>()(p[j - 1], v) ==> k == 1 && u.traffic.writes == t.traffic.writes
        }),
    decreases j,
{
    if j > 0 {
        let less = !elem_le::<T>()(p[j - 1], v);
        lemma_compare(TraceHooks::after(t, Note::Read), v, p[j - 1], less);
        let u = told::<TraceHooks>(TraceHooks::after(t, Note::Read), Less::<T>::notes(&Natural, v, p[j - 1], less));
        if less {
            lemma_place(TraceHooks::after(u, Note::Write), p, v, j - 1);
        }
    }
}

/// An insertion sort reads an element when its turn comes and once for every
/// comparison, and writes it once and another for every one that it goes before: a
/// comparison for each element but the first at least, and for each pair at most.
pub proof fn insertions_read_once_for_each_comparison<T: Elem>(t: Tally, s: Seq<T>, i: int)
    requires
        1 <= i <= 0x1000_0000,
        has_room(t, i * i),
    ensures
        ({
            let u = insertion_tally::<T, Natural, TraceHooks>(&Natural, elem_le::<T>(), t, s, i);
            let k = u.counters.compares - t.counters.compares;
            &&& i - 1 <= k
            &&& 2 * k <= i * (i - 1)
            &&& u.traffic.reads == t.traffic.reads + (i - 1) + k
            &&& k <= u.traffic.writes - t.traffic.writes <= k + (i - 1)
        }),
    decreases i,
{
    if i > 1 {
        assert(i * i == (i - 1) * (i - 1) + 2 * (i - 1) + 1 && i * (i - 1) == (i - 1) * (i - 2) + 2 * (i - 1) && (i - 1) * (i - 2) + (i - 1) == (i - 1) * (i - 1)) by (nonlinear_arith);
        insertions_read_once_for_each_comparison(t, s, i - 1);
        let b = insertion_tally::<T, Natural, TraceHooks>(&Natural, elem_le::<T>(), t, s, i - 1);
        lemma_place(TraceHooks::after(b, Note::Read), placed_to(elem_le::<T>(), s, i - 1), s[i - 1], i - 1);
    }
}

/// A merge writes every element once. With the two heads held it reads one more than
/// there are, and without them both for every comparison and the rest once; it compares
/// less often than it writes, and once at least.
pub proof fn merges_write_once<T: Elem>(t: Tally, s: Seq<T>, mid: int, held: bool)
    requires
        0 < mid < s.len(),
        has_room(t, 3 * s.len() as int),
    ensures
        ({
            let u = merging_tally::<T, TraceHooks>(notes_of(&Natural), elem_le::<T>(), t, s, mid, held, 0, mid);
            let k = u.counters.compares - t.counters.compares;
            &&& 1 <= k < s.len()
            &&& u.traffic.writes == t.traffic.writes + s.len()
            &&& held ==> u.traffic.reads == t.traffic.reads + s.len() + 1
            &&& !held ==> u.traffic.reads == t.traffic.reads + s.len() + k
        }),
{
    lemma_merging(t, s, mid, held, 0, mid);
}

proof fn lemma_merging<T: Elem>(t: Tally, s: Seq<T>, mid: int, held: bool, i: int, j: int)
    requires
        0 <= i <= mid <= j <= s.len(),
        has_room(t, 3 * ((mid - i) + (s.len() - j))),
    ensures
        ({
            let u = merging_tally::<T, TraceHooks>(notes_of(&Natural), elem_le::<T>(), t, s, mid, held, i, j);
            let k = u.counters.compares - t.counters.compares;
            let n = (mid - i) + (s.len() - j);
            let open = i < mid && j < s.len();
            &&& open ==> 1 <= k < n
            &&& !open ==> k == 0
            &&& u.traffic.writes == t.traffic.writes + n
            &&& !open ==> u.traffic.reads == t.traffic.reads + n
            &&& open && !held ==> u.traffic.reads == t.traffic.reads + n + k
            &&& open && held && i + (j - mid) == 0 ==> u.traffic.reads == t.traffic.reads + n + 1
            &&& open && held && i + (j - mid) > 0 ==> u.traffic.reads == t.traffic.reads + n - 1
        }),
    decreases (mid - i) + (s.len() - j),
{
    let le = elem_le::<T>();
    let notes = notes_of::<T, Natural>(&Natural);
    if i >= mid && j >= s.len() {
    } else if i < mid && j < s.len() {
        let seen = if !held || i + (j - mid) == 0 {
            TraceHooks::after(TraceHooks::after(t, Note::Read), Note::Read)
        } else {
            t
        };
        let less = !le(s[i], s[j]);
        lemma_compare(seen, s[j], s[i], less);
        let put = TraceHooks::after(told::<TraceHooks>(seen, notes(s[j], s[i], less)), Note::Write);
        if less {
            let next = if held && j + 1 < s.len() {
                TraceHooks::after(put, Note::Read)
            } else {
                put
            };
            lemma_merging(next, s, mid, held, i, j + 1);
        } else {
            let next = if held && i + 1 < mid {
                TraceHooks::after(put, Note::Read)
            } else {
                put
            };
            lemma_merging(next, s, mid, held, i + 1, j);
        }
    } else {
        let put = TraceHooks::after(TraceHooks::after(t, Note::Read), Note::Write);
        if j < s.len() {
            lemma_merging(put, s, mid, held, i, j + 1);
        } else {
            lemma_merging(put, s, mid, held, i + 1, j);
        }
    }
}

proof fn lemma_forward<T: Elem>(t: Tally, x: Seq<T>, y: Seq<T>)
    requires
        has_room(t, 2 * (x.len() + y.len()) as int),
    ensures
        ({
            let u = forward_tally::<T, TraceHooks>(t, x, y);
            let k = u.counters.compares - t.counters.compares;
            let w = u.traffic.writes - t.traffic.writes;
            &&& x.len() <= w <= x.len() + y.len() || x.len() == 0 && w == 0
            &&& 0 <= k <= w
            &&& x.len() > 0 && y.len() > 0 ==> 1 <= k < x.len() + y.len()
            &&& x.len() == 0 ==> k == 0 && w == 0 && u.traffic.reads == t.traffic.reads
            &&& y.len() == 0 ==> k == 0 && w == x.len() && u.traffic.reads == t.traffic.reads + x.len()
            &&& x.len() > 0 && y.len() > 0 ==> w - 1 <= u.traffic.reads - t.traffic.reads <= w
        }),
    decreases x.len() + y.len(),
{
    if x.len() == 0 {
    } else if y.len() == 0 {
        lemma_forward(TraceHooks::after(TraceHooks::after(t, Note::Read), Note::Write), x.skip(1), y);
    } else {
        let less = !elem_le::<T>()(x[0], y[0]);
        lemma_compare(t, y[0], x[0], less);
        let u = TraceHooks::after(told::<TraceHooks>(t, Less::<T>::notes(&Natural, y[0], x[0], less)), Note::Write);
        if less {
            let v = if y.len() > 1 {
                TraceHooks::after(u, Note::Read)
            } else {
                u
            };
            lemma_forward(v, x, y.skip(1));
        } else {
            let v = if x.len() > 1 {
                TraceHooks::after(u, Note::Read)
            } else {
                u
            };
            lemma_forward(v, x.skip(1), y);
        }
    }
}

proof fn lemma_backward<T: Elem>(t: Tally, x: Seq<T>, y: Seq<T>)
    requires
        has_room(t, 2 * (x.len() + y.len()) as int),
    ensures
        ({
            let u = backward_tally::<T, TraceHooks>(t, x, y);
            let k = u.counters.compares - t.counters.compares;
            let w = u.traffic.writes - t.traffic.writes;
            &&& y.len() <= w <= x.len() + y.len() || y.len() == 0 && w == 0
            &&& 0 <= k <= w
            &&& x.len() > 0 && y.len() > 0 ==> 1 <= k < x.len() + y.len()
            &&& y.len() == 0 ==> k == 0 && w == 0 && u.traffic.reads == t.traffic.reads
            &&& x.len() == 0 ==> k == 0 && w == y.len() && u.traffic.reads == t.traffic.reads + y.len()
            &&& x.len() > 0 && y.len() > 0 ==> w - 1 <= u.traffic.reads - t.traffic.reads <= w
        }),
    decreases x.len() + y.len(),
{
    if y.len() == 0 {
    } else if x.len() == 0 {
        lemma_backward(TraceHooks::after(TraceHooks::after(t, Note::Read), Note::Write), x, y.drop_last());
    } else {
        let less = !elem_le::<T>()(x.last(), y.last());
        lemma_compare(t, y.last(), x.last(), less);
        let u = TraceHooks::after(told::<TraceHooks>(t, Less::<T>::notes(&Natural, y.last(), x.last(), less)), Note::Write);
        if less {
            let v = if x.len() > 1 {
                TraceHooks::after(u, Note::Read)
            } else {
                u
            };
            lemma_backward(v, x.drop_last(), y);
        } else {
            let v = if y.len() > 1 {
                TraceHooks::after(u, Note::Read)
            } else {
                u
            };
            lemma_backward(v, x, y.drop_last());
        }
    }
}

/// Merging two runs in place copies the shorter one out, and then writes its elements
/// and those of the longer one that move; it compares once at least, and less often
/// than there are elements. A run that is empty costs nothing.
pub proof fn run_merges_copy_the_shorter<T: Elem>(t: Tally, x: Seq<T>, y: Seq<T>)
    requires
        has_room(t, 4 * (x.len() + y.len()) as int + 2),
    ensures
        ({
            let u = merge_tally::<T, TraceHooks>(t, x, y);
            let k = u.counters.compares - t.counters.compares;
            let w = u.traffic.writes - t.traffic.writes;
            let m = if x.len() <= y.len() {
                x.len()
            } else {
                y.len()
            };
            &&& m == 0 ==> u == t
            &&& m > 0 ==> 1 <= k < x.len() + y.len()
            &&& m > 0 ==> 2 * m <= w <= m + x.len() + y.len()
            &&& m > 0 ==> w + 1 <= u.traffic.reads - t.traffic.reads <= w + 2
        }),
{
    if x.len() > 0 && y.len() > 0 {
        let m = if x.len() <= y.len() {
            x.len()
        } else {
            y.len()
        };
        copies_read_and_write_once(t, m as int);
        let v = TraceHooks::after(TraceHooks::after(after_copies::<TraceHooks>(t, m as int), Note::Read), Note::Read);
        if x.len() <= y.len() {
            lemma_forward(v, x, y);
        } else {
            lemma_backward(v, x, y);
        }
    }
}

/// Merging blocks in pairs writes every element once, and reads it once at least and
/// twice at most.
pub proof fn block_merges_write_once<T: Elem>(t: Tally, s: Seq<T>, w: int, lo: int)
    requires
        0 < w,
        0 <= lo <= s.len(),
        has_room(t, 3 * (s.len() - lo)),
    ensures
        ({
            let u = blocks_tally::<T, TraceHooks>(notes_of(&Natural), elem_le::<T>(), t, s, w, lo);
            let k = u.counters.compares - t.counters.compares;
            &&& u.traffic.writes == t.traffic.writes + (s.len() - lo)
            &&& u.traffic.reads == t.traffic.reads + (s.len() - lo) + k
            &&& 0 <= k <= s.len() - lo
        }),
    decreases s.len() - lo,
{
    let mid = block_end(s.len() as int, lo, w);
    let hi = block_end(s.len() as int, mid, w);
    if lo < s.len() && hi > lo {
        lemma_merging(t, s.subrange(lo, hi), mid - lo, false, 0, mid - lo);
        let u = merging_tally::<T, TraceHooks>(notes_of(&Natural), elem_le::<T>(), t, s.subrange(lo, hi), mid - lo, false, 0, mid - lo);
        block_merges_write_once(u, s, w, hi);
    }
}

/// So many passes read and write every element as often, and are counted.
pub proof fn passes_read_and_write_once_each<T: Elem, F: KeyFn<T>>(t: Tally, s: Seq<T>, key: F, plan: DigitPlan, order: Seq<int>, q: int)
    requires
        0 <= q <= 8,
        s.len() <= 0xFFFF_FFFF,
        has_room(t, 8 * s.len() as int),
        has_table_room(t, 0x1000_0000_0000),
        t.stats.radix_passes <= 0xFFFF_FFFF,
        plan.max_bits < 32,
        q <= order.len(),
        forall|k: int| 0 <= k < order.len() ==> 0 <= #[trigger] order[k] < 8 && plan.bits[order[k]] < 32,
    ensures
        between(t, passes_tally::<T, F, TraceHooks>(t, s, key, plan, order, q), q * s.len(), q * s.len(), 0),
        passes_tally::<T, F, TraceHooks>(t, s, key, plan, order, q).stats.radix_passes == t.stats.radix_passes + q,
        ({
            let u = passes_tally::<T, F, TraceHooks>(t, s, key, plan, order, q);
            &&& t.traffic.table_reads <= u.traffic.table_reads <= t.traffic.table_reads + q * 0x100_0000_0000
            &&& t.traffic.table_writes <= u.traffic.table_writes <= t.traffic.table_writes + q * 0x100_0000_0000
            &&& t.traffic.table_bytes <= u.traffic.table_bytes <= t.traffic.table_bytes + q * 0x100_0000_0000
        }),
    decreases q,
{
    if q > 0 {
        let n = s.len() as int;
        passes_read_and_write_once_each(t, s, key, plan, order, q - 1);
        let u = passes_tally::<T, F, TraceHooks>(t, s, key, plan, order, q - 1);
        assert(q * n == (q - 1) * n + n && (q - 1) * n <= 7 * n) by (nonlinear_arith)
            requires
                1 <= q <= 8,
                n >= 0,
        ;
        lemma_pow2_32();
        let b = plan.bits[order[q - 1]] as nat;
        vstd::arithmetic::power2::lemma_pow2_strictly_increases(b, 32);
        vstd::arithmetic::power2::lemma_pow2_strictly_increases(plan.max_bits as nat, 32);
        scatters_read_and_write_once(
            TraceHooks::after(u, Note::Count(Stat::RadixPasses, 1)),
            passed(s, key, plan, order, q - 1),
            key.at(),
            pow2(b) as usize,
            q < order.len(),
            pow2(plan.max_bits as nat) as usize,
            n,
        );
    }
}

/// What a string's key is loaded from, and what a comparison of two looks at: of each
/// the bytes up to the first that differs, and that one. Keys that lie in the elements
/// load nothing.
pub proof fn keys_outside_the_elements_are_loaded<'a>(x: StrItem<'a>, y: StrItem<'a>, a: Item, b: Item, c: int, n: int)
    requires
        x.text@.len() <= SLOT_MAX,
        y.text@.len() <= SLOT_MAX,
        0 <= 7 * c <= n,
        n <= x.text@.len(),
        n <= y.text@.len(),
        forall|i: int| 7 * c <= i < n ==> x.text@[i] == y.text@[i],
    ensures
        x.key_load(c) <= 8,
        7 * c + 8 <= x.text@.len() ==> x.key_load(c) == 8,
        7 * c <= x.text@.len() < 7 * c + 8 ==> x.key_load(c) == x.text@.len() - 7 * c,
        n < x.text@.len() && n < y.text@.len() && x.text@[n] != y.text@[n] ==> x.compare_load(&y, c) == 2 * (n - 7 * c + 1),
        n == x.text@.len() || n == y.text@.len() ==> x.compare_load(&y, c) == 2 * (n - 7 * c),
        a.key_load(c) == 0 && a.compare_load(&b, c) == 0,
{
    comparisons_look_up_to_the_difference(x.text@, y.text@, 7 * c, n);
}

// ---- whole sorts ---------------------------------------------------------------------------------

/// Elements in order are read once each and compared with the one before; none is
/// written, and no memory is asked for.
pub proof fn sorted_elements_are_read_once<T: Item2>(items: Seq<T>)
    requires
        32 < items.len() <= 0xFFFF_FFFF,
        forall|i: int, j: int| 0 <= i <= j < items.len() ==> elem_le::<T>()(#[trigger] items[i], #[trigger] items[j]),
    ensures
        between(Tally::none(), run_end(items).track.tally, items.len() as int, 0, items.len() - 1),
        run_end(items).track.tally.stats.first_route == 1,
        run_end(items).track.tally.stats.max_depth == 1,
        run_end(items).track.books.asked.len() == 0,
        run_end(items).track.books.most == 0,
{
    let n = items.len() as int;
    let t = run_start();
    let begun = TraceHooks::after(t.track.tally, Note::Enter);
    sorting_the_sorted::<T, TraceHooks>(t, items, false, 0, usual_machine());
    scouts_read_once(begun, items, 0, n);
    lemma_scout_stats(begun, items, 0, n);
}

proof fn lemma_scout_stats<T: Elem>(t: Tally, a: Seq<T>, c: int, i: int)
    ensures
        scout_tally::<T, TraceHooks>(t, a, c, i).stats == t.stats,
    decreases i,
{
    if i > 1 {
        lemma_scout_stats(t, a, c, i - 1);
    }
}

/// Elements that fall at every step are read once each and compared with the one
/// before, and then change places in pairs; no memory is asked for.
pub proof fn reversed_elements_change_places<T: Item2>(items: Seq<T>)
    requires
        32 < items.len() <= 0xFFFF_FFFF,
        forall|i: int| 0 < i < items.len() ==> !elem_le::<T>()(#[trigger] items[i - 1], items[i]),
    ensures
        between(Tally::none(), run_end(items).track.tally, items.len() + 2 * (items.len() as int / 2), 2 * (items.len() as int / 2), items.len() - 1),
        run_end(items).track.tally.stats.first_route == 2,
        run_end(items).track.books.asked.len() == 0,
        run_end(items).track.books.most == 0,
{
    let le = elem_le::<T>();
    let n = items.len() as int;
    lemma_strict(items, n);
    lemma_no_commit(le, items);
    assert(!exists|k: int| #[trigger] stops_at(le, items, k));
    let t = run_start();
    let begun = TraceHooks::after(t.track.tally, Note::Enter);
    sorting_the_reversed::<T, TraceHooks>(t, items, false, 0, usual_machine());
    scouts_read_once(begun, items, 0, n);
    lemma_scout_stats(begun, items, 0, n);
    let seen = TraceHooks::after(scout_tally::<T, TraceHooks>(begun, items, 0, n), Note::Route(2));
    swaps_read_and_write_twice(seen, n / 2);
    assert(reverse_tally::<T, TraceHooks>(seen, items) == after_swaps::<TraceHooks>(seen, n / 2));
}

proof fn lemma_strict<T: Elem>(a: Seq<T>, n: int)
    requires
        0 <= n <= a.len(),
        forall|i: int| 0 < i < a.len() ==> !elem_le::<T>()(#[trigger] a[i - 1], a[i]),
    ensures
        n >= 1 ==> descents_to(elem_le::<T>(), a, n) == n - 1,
        ascents_to(elem_le::<T>(), a, n) == 0,
    decreases n,
{
    if n > 1 {
        lemma_strict(a, n - 1);
        lemma_elem_le_total::<T>();
        assert(!elem_le::<T>()(a[(n - 1) - 1], a[n - 1]));
        assert(elem_le::<T>()(a[n - 1], a[n - 2]));
        assert(descent(elem_le::<T>(), a, n - 1));
    }
}

/// A few elements are sorted by insertion: one read for each but the first and one for
/// every comparison, and no memory.
pub proof fn few_elements_are_inserted<T: Item2>(items: Seq<T>)
    requires
        2 <= items.len() <= 32,
    ensures
        ({
            let u = run_end(items).track.tally;
            let k = u.counters.compares;
            &&& items.len() - 1 <= k
            &&& 2 * k <= items.len() * (items.len() - 1)
            &&& u.traffic.reads == items.len() - 1 + k
            &&& k <= u.traffic.writes <= k + items.len() - 1
        }),
        run_end(items).track.books.asked.len() == 0,
        run_end(items).track.books.most == 0,
{
    reveal(sort_end);
    assert(items.len() * items.len() <= 1024) by (nonlinear_arith)
        requires
            items.len() <= 32,
    ;
    insertions_read_once_for_each_comparison(Tally::none(), items, items.len() as int);
}

/// A few runs are merged with a buffer of half the elements and one, and nothing else.
pub proof fn runs_are_merged_with_half_the_memory<T: Item2>(items: Seq<T>)
    requires
        32 < items.len() <= 0xFFFF_FFFF,
        first_route(items) == 3,
        !too_large::<T>(items.len() / 2 + 1),
    ensures
        run_end(items).track.books.asked == seq![(items.len() / 2 + 1) * vstd::layout::size_of::<T>()],
        run_end(items).track.books.most == (items.len() / 2 + 1) * vstd::layout::size_of::<T>(),
        run_end(items).buf == items.len() / 2 + 1,
{
    let t = run_start();
    sorting_a_few_runs::<T, TraceHooks>(t, items, false, 0, usual_machine());
    lemma_no_space::<T>();
    arrays_take_their_bytes::<T>(items.len() / 2 + 1);
    assert(run_end(items).track.books.asked =~= seq![(items.len() / 2 + 1) * vstd::layout::size_of::<T>()]);
}

} // verus!
