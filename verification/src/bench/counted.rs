//! The counted run: a sort with its decisions and its memory watched, and its
//! result checked.
use crate::algorithm::{
    at_ease, brainsort_impl, first_route, in_runs, levels, sort_end, trail, Scratch, Track, Trail,
    INSERTION_MAX,
};
use crate::algorithm::scout::least_scanned;
use crate::bench::{copied, order_hash, order_hash_to, sort_fault, verify_sorted, Fault, Item2};
use crate::bench::render::{decimal, decimal_of, hex16, hex_of};
use crate::bench::trace::{Seen, MAX_BYTES};
use crate::bench::watch::{
    total, watched_all, AlgoStats, AllocStats, Counters, Tally, TraceAlloc, TraceHooks, Traffic,
};
use crate::cpu::{usual_machine, Machine};
use crate::order::{stable_sort_is_unique, stable_sort_of};
use crate::view::{elem_le, lemma_elem_le_total, Alloc, AllocError, Books, Hooks};
use vstd::prelude::*;

verus! {

/// The name of a route.
pub open spec fn route_text(r: u8) -> Seq<char> {
    if r == 0 {
        "-"@
    } else if r == 1 {
        "sorted"@
    } else if r == 2 {
        "reverse"@
    } else if r == 3 {
        "runs"@
    } else if r == 4 {
        "displaced"@
    } else {
        "radix"@
    }
}

/// The name of a route.
pub fn route_name(r: u8) -> (s: &'static str)
    ensures
        s@ == route_text(r),
{
    match r {
        0 => "-",
        1 => "sorted",
        2 => "reverse",
        3 => "runs",
        4 => "displaced",
        _ => "radix",
    }
}

/// Why a counted run is not good.
#[derive(Clone, Copy, Debug, PartialEq, Eq, Structural)]
pub enum RunError {
    /// There was no memory.
    Allocation,
    /// Memory was not given back.
    Leak { bytes: usize },
    /// The result is not the stable sort.
    Result { fault: Fault },
}

impl RunError {
    /// The error in words.
    pub open spec fn text(self) -> Seq<char> {
        match self {
            RunError::Allocation => "allocation failed"@,
            RunError::Leak { bytes } => "aux_memory_leak"@,
            RunError::Result { fault } => "counted_pass_failed:"@ + fault.text(),
        }
    }

    /// The error in words.
    pub fn message(self) -> (r: String)
        ensures
            r@ == self.text(),
    {
        match self {
            RunError::Allocation => String::from_str("allocation failed"),
            RunError::Leak { bytes } => String::from_str("aux_memory_leak"),
            RunError::Result { fault } => {
                let mut s: String = String::from_str("counted_pass_failed:");
                s.append(fault.message().as_str());
                s
            },
        }
    }
}

/// The deterministic facts of one run.
#[derive(Clone, Copy, Debug)]
pub struct DetRecord {
    /// What is wrong with the run.
    pub error: Option<RunError>,
    /// What the sort decided.
    pub stats: AlgoStats,
    /// Its comparisons.
    pub counters: Counters,
    /// What it read and wrote.
    pub traffic: Traffic,
    /// What the places show that it read and wrote.
    pub seen: Seen,
    /// The arrays that were watched, in all.
    pub buffers: u64,
    /// The bytes of an element.
    pub element_bytes: usize,
    /// The memory it took.
    pub alloc: AllocStats,
    /// How often memory was refused.
    pub refusals: u64,
    /// The hash of the order it produced.
    pub order_hash: u64,
}

impl DetRecord {
    /// What was told of the run, but for the places.
    pub open spec fn tally(&self) -> Tally {
        Tally { stats: self.stats, counters: self.counters, traffic: self.traffic }
    }

    /// The columns of the run: name and value.
    pub open spec fn columns(&self) -> Seq<(Seq<char>, Seq<char>)> {
        seq![
            ("reads"@, decimal_of(self.traffic.reads as nat)),
            ("writes"@, decimal_of(self.traffic.writes as nat)),
            ("compares"@, decimal_of(self.counters.compares as nat)),
            ("table_reads"@, decimal_of(self.traffic.table_reads as nat)),
            ("table_writes"@, decimal_of(self.traffic.table_writes as nat)),
            ("table_bytes"@, decimal_of(self.traffic.table_bytes as nat)),
            ("key_bytes"@, decimal_of(self.traffic.key_bytes as nat)),
            ("cmp_flips"@, decimal_of(self.counters.flips as nat)),
            ("traffic_bytes"@, decimal_of(self.traffic.moved(self.element_bytes as u64) as nat)),
            ("l1_misses"@, decimal_of(self.seen.l1_misses as nat)),
            ("l2_misses"@, decimal_of(self.seen.l2_misses as nat)),
            ("unmapped"@, decimal_of(self.seen.unmapped as nat)),
            ("aux_peak_bytes"@, decimal_of(self.alloc.peak as nat)),
            ("aux_allocs"@, decimal_of(self.alloc.allocs as nat)),
            ("max_depth"@, decimal_of(self.stats.max_depth as nat)),
            ("fallbacks"@, decimal_of(0)),
            ("bad_parts"@, decimal_of(0)),
            ("route"@, route_text(self.stats.first_route)),
            ("r_sorted"@, decimal_of(self.stats.sorted as nat)),
            ("r_reverse"@, decimal_of(self.stats.reverse as nat)),
            ("r_runs"@, decimal_of(self.stats.runs as nat)),
            ("r_displaced"@, decimal_of(self.stats.displaced as nat)),
            ("r_radix"@, decimal_of(self.stats.radix as nat)),
            ("giveups"@, decimal_of(self.stats.giveups as nat)),
            ("splits"@, decimal_of(self.stats.splits as nat)),
            ("split_retries"@, decimal_of(self.stats.split_retries as nat)),
            ("part_sorts"@, decimal_of(self.stats.part_sorts as nat)),
            ("dict_tries"@, decimal_of(self.stats.dict_tries as nat)),
            ("dict_hits"@, decimal_of(self.stats.dict_hits as nat)),
            ("plan_retries"@, decimal_of(self.stats.plan_retries as nat)),
            ("radix_passes"@, decimal_of(self.stats.radix_passes as nat)),
            ("passes_skipped"@, decimal_of(self.stats.passes_skipped as nat)),
            ("order_hash"@, hex_of(self.order_hash as nat, 16)),
            ("trace_hash"@, hex_of(self.seen.hash as nat, 16)),
        ]
    }

    /// Whether the run is good.
    pub fn ok(&self) -> (r: bool)
        ensures
            r == (self.error is None),
    {
        self.error.is_none()
    }

    /// The columns of the run: name and value.
    pub fn values(&self) -> (v: Vec<(&'static str, String)>)
        ensures
            shown(v@) == self.columns(),
    {
        let mut v: Vec<(&'static str, String)> = Vec::new();
        v.push(("reads", decimal(self.traffic.reads)));
        v.push(("writes", decimal(self.traffic.writes)));
        v.push(("compares", decimal(self.counters.compares)));
        v.push(("table_reads", decimal(self.traffic.table_reads)));
        v.push(("table_writes", decimal(self.traffic.table_writes)));
        v.push(("table_bytes", decimal(self.traffic.table_bytes)));
        v.push(("key_bytes", decimal(self.traffic.key_bytes)));
        v.push(("cmp_flips", decimal(self.counters.flips)));
        v.push(("traffic_bytes", decimal(self.traffic.bytes(self.element_bytes as u64))));
        v.push(("l1_misses", decimal(self.seen.l1_misses)));
        v.push(("l2_misses", decimal(self.seen.l2_misses)));
        v.push(("unmapped", decimal(self.seen.unmapped)));
        v.push(("aux_peak_bytes", decimal(self.alloc.peak as u64)));
        v.push(("aux_allocs", decimal(self.alloc.allocs)));
        v.push(("max_depth", decimal(self.stats.max_depth as u64)));
        v.push(("fallbacks", decimal(0)));
        v.push(("bad_parts", decimal(0)));
        v.push(("route", String::from_str(route_name(self.stats.first_route))));
        v.push(("r_sorted", decimal(self.stats.sorted)));
        v.push(("r_reverse", decimal(self.stats.reverse)));
        v.push(("r_runs", decimal(self.stats.runs)));
        v.push(("r_displaced", decimal(self.stats.displaced)));
        v.push(("r_radix", decimal(self.stats.radix)));
        v.push(("giveups", decimal(self.stats.giveups)));
        v.push(("splits", decimal(self.stats.splits)));
        v.push(("split_retries", decimal(self.stats.split_retries)));
        v.push(("part_sorts", decimal(self.stats.part_sorts)));
        v.push(("dict_tries", decimal(self.stats.dict_tries)));
        v.push(("dict_hits", decimal(self.stats.dict_hits)));
        v.push(("plan_retries", decimal(self.stats.plan_retries)));
        v.push(("radix_passes", decimal(self.stats.radix_passes)));
        v.push(("passes_skipped", decimal(self.stats.passes_skipped)));
        v.push(("order_hash", hex16(self.order_hash)));
        v.push(("trace_hash", hex16(self.seen.hash)));
        assert(shown(v@) =~= self.columns());
        v
    }
}

/// Names and values as text.
pub open spec fn shown(v: Seq<(&'static str, String)>) -> Seq<(Seq<char>, Seq<char>)> {
    v.map_values(|p: (&'static str, String)| (p.0@, p.1@))
}

/// What is wrong with a run that ended with `leak` bytes still held and the
/// elements `out`.
pub open spec fn run_error<T: Item2>(failed: bool, leak: usize, out: Seq<T>, reference: Seq<T>) -> Option<RunError> {
    if failed {
        Some(RunError::Allocation)
    } else if leak != 0 {
        Some(RunError::Leak { bytes: leak })
    } else {
        match sort_fault(out, reference) {
            Some(fault) => Some(RunError::Result { fault }),
            None => None,
        }
    }
}

/// The record of a run, from what it left and what the hooks and the memory saw of
/// it.
pub fn record_run<T: Item2>(failed: bool, work: &[T], reference: &[T], hooks: &TraceHooks, alloc: AllocStats, refusals: u64) -> (r: DetRecord)
    ensures
        r.error == run_error(failed, alloc.leak, work@, reference@),
        r.tally() == hooks.tally(),
        hooks.places.running() ==> {
            &&& r.seen.l1_misses == hooks.places.now().cache.state().l1_misses
            &&& r.seen.l2_misses == hooks.places.now().cache.state().l2_misses
            &&& r.seen.unmapped == hooks.places.now().unmapped
            &&& r.seen.hash == hooks.places.now().hash
        },
        r.seen.l2_misses <= r.seen.l1_misses,
        r.buffers == hooks.buffers(),
        r.element_bytes == vstd::layout::size_of::<T>(),
        r.alloc == alloc,
        r.refusals == refusals,
        r.order_hash == order_hash_to(work@, work@.len() as int),
{
    let error: Option<RunError> = if failed {
        Some(RunError::Allocation)
    } else if alloc.leak != 0 {
        Some(RunError::Leak { bytes: alloc.leak })
    } else {
        match verify_sorted(work, reference) {
            Ok(_) => None,
            Err(fault) => Some(RunError::Result { fault }),
        }
    };
    DetRecord {
        error,
        stats: hooks.stats,
        counters: hooks.counters,
        traffic: hooks.traffic,
        seen: hooks.places.seen(),
        buffers: hooks.places.watched_so_far(),
        element_bytes: core::mem::size_of::<T>(),
        alloc,
        refusals,
        order_hash: order_hash(work),
    }
}

/// Where a run begins: nothing is on record and no memory was asked for.
pub open spec fn run_start() -> Trail<Tally> {
    Trail { track: Track { tally: Tally::none(), tables: 0, books: Books { asked: Seq::empty(), held: 0, most: 0 } }, buf: 0 }
}

/// Where a run without a refusal ends. It is a function of the elements.
pub open spec fn run_end<T: Item2>(items: Seq<T>) -> Trail<Tally> {
    sort_end::<T, TraceHooks>(run_start(), items, false, 0, usual_machine())
}

/// A run that sorted `items` and left them as `out` comes to this record. Without
/// a refusal the elements are sorted, and the counts, the arrays that were asked for
/// and the peak are those of [`run_end`]: nothing of the record is open but the
/// places. Elements at ease are refused nothing.
pub open spec fn run_of<T: Item2>(items: Seq<T>, rec: DetRecord, out: Seq<T>) -> bool {
    let n = items.len() as int;
    &&& out.len() == n
    &&& rec.order_hash == order_hash_to(out, n)
    &&& rec.element_bytes == vstd::layout::size_of::<T>()
    &&& rec.alloc.leak == 0
    &&& !(rec.error matches Some(RunError::Leak { bytes }))
    &&& rec.error == Some(RunError::Allocation) ==> rec.refusals > 0
    &&& rec.error == Some(RunError::Allocation) || stable_sort_of(elem_le::<T>(), items, out)
    &&& rec.refusals == 0 ==> {
        &&& rec.tally() == run_end(items).track.tally
        &&& rec.alloc.peak == run_end(items).track.books.most
        &&& watched_all(rec.alloc, run_end(items).track.books.asked)
    }
    &&& 2 <= n <= 0xFFFF_FFFF ==> rec.traffic.reads >= least_scanned(n) && rec.counters.compares >= least_scanned(n) - 1
    &&& rec.stats.depth == 0
    &&& n <= 0xFFFF_FFFF ==> rec.stats.max_depth <= levels(n)
    &&& n <= 0xFFFF_FFFF ==> rec.stats.first_route == if n <= INSERTION_MAX {
        0
    } else {
        first_route(items)
    }
    &&& rec.seen.l2_misses <= rec.seen.l1_misses
    &&& at_ease(items) ==> rec.refusals == 0 && rec.alloc.peak == 0 && rec.alloc.allocs == 0
    &&& in_runs(items) && rec.refusals == 0 ==> rec.alloc.allocs == 1 && rec.alloc.peak == (n / 2 + 1) * vstd::layout::size_of::<T>()
}

/// Runs the sort once on a copy of the input with everything watched and the
/// cache model on; `pool` is where the keys of the elements lie, where that is
/// outside of them. Returns the record, and the elements as the sort left them.
#[verifier::rlimit(40)]
pub fn counted_run<T: Item2>(items: &[T], pool: Option<&[u8]>, reference: &[T]) -> (r: (DetRecord, Vec<T>))
    ensures
        run_of(items@, r.0, r.1@),
        r.0.buffers >= 1,
        pool matches Some(p) ==> p@.len() <= MAX_BYTES ==> r.0.buffers >= 2,
        r.0.error != Some(RunError::Allocation) ==> r.0.error == run_error(false, 0, r.1@, reference@),
        stable_sort_of(elem_le::<T>(), items@, reference@) ==> r.0.error is None || r.0.error == Some(RunError::Allocation),
{
    let mut work: Vec<T> = copied(items);
    let watched: TraceHooks = TraceHooks::new(&work, pool);
    let mem: TraceAlloc = TraceAlloc::new();
    let mut scratch: Scratch<T, TraceAlloc, TraceHooks> = Scratch::new(mem, watched, Machine::default());
    assert(trail(scratch) == run_start());
    let result = brainsort_impl(&mut work, &mut scratch, false, 0);
    let failed = result.is_err();
    proof {
        if let Ok(b) = result {
            assert(result == Ok::<bool, AllocError>(b));
            assert(b);
        }
        lemma_levels(items@.len() as int);
    }
    let seen: AllocStats = scratch.tools.mem.so_far();
    let ghost asked = scratch.tools.mem.asked();
    let (mem, hooks) = scratch.release();
    let refusals: u64 = mem.refused();
    let last: AllocStats = mem.so_far();
    let alloc = AllocStats { peak: seen.peak, allocs: seen.allocs, leak: last.leak, sizes: seen.sizes };
    let rec: DetRecord = record_run(failed, &work, reference, &hooks, alloc, refusals);
    proof {
        if refusals == 0 {
            assert(watched_all(rec.alloc, asked));
            if asked == Seq::<nat>::empty() {
                assert(total(asked) == 0);
            }
            if in_runs(items@) {
                let k = (items@.len() / 2 + 1) * vstd::layout::size_of::<T>();
                assert(asked == Seq::<nat>::empty().push(k));
                assert(asked.drop_last() =~= Seq::<nat>::empty());
                assert(total(asked.drop_last()) == 0);
                assert(asked[0] == k);
            }
        }
        if !failed && stable_sort_of(elem_le::<T>(), items@, reference@) {
            lemma_elem_le_total::<T>();
            stable_sort_is_unique(elem_le::<T>(), items@, work@, reference@);
            assert forall|i: int| 0 <= i < work@.len() implies (#[trigger] work@[i]).same_as(&reference@[i]) by {
                work@[i].same_reflexive();
            }
        }
    }
    (rec, work)
}

/// There are few levels of recursion.
proof fn lemma_levels(n: int)
    requires
        0 <= n,
    ensures
        n <= 0xFFFF_FFFF ==> 0 < levels(n) <= 32,
{
    if 2 <= n <= 0xFFFF_FFFF {
        vstd::arithmetic::logarithm::lemma_log_s(2, n);
        vstd::arithmetic::logarithm::lemma_log_nonnegative(2, n / 2);
        vstd::arithmetic::logarithm::lemma_log_is_ordered(2, n, 0x1_0000_0000);
        vstd::arithmetic::logarithm::lemma_log_pow(2, 32);
        vstd::arithmetic::power2::lemma2_to64();
        vstd::arithmetic::power2::lemma_pow2(32);
    }
}

/// The columns that show places: they rest on where the machine puts the arrays.
pub open spec fn shows_places(column: int) -> bool {
    9 <= column <= 11 || column == 33
}

/// Law: two runs of the same elements without a refusal show the same in every
/// column but those of the places.
pub proof fn second_run_counts_the_same<T: Item2>(items: Seq<T>, a: DetRecord, x: Seq<T>, b: DetRecord, y: Seq<T>)
    requires
        a.refusals == 0,
        b.refusals == 0,
        run_of(items, a, x),
        run_of(items, b, y),
    ensures
        x == y,
        a.columns().len() == b.columns().len() == 34,
        forall|i: int| 0 <= i < 34 && !shows_places(i) ==> #[trigger] a.columns()[i] == b.columns()[i],
{
    lemma_elem_le_total::<T>();
    stable_sort_is_unique(elem_le::<T>(), items, x, y);
    assert(a.tally() == b.tally());
    assert(a.alloc.peak == b.alloc.peak && a.alloc.allocs == b.alloc.allocs);
}

} // verus!
