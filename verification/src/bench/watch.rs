//! What is counted of a sort: its memory, its comparisons and key reads, and the
//! decisions that it took.
use crate::bench::FNV_OFFSET;
use crate::bench::trace::{free_slot, region_of, CacheModel, Places, Region, MAX_BYTES};
use crate::view::{place_of, Alloc, Hooks, Note, Stat};
use vstd::prelude::*;

verus! {

// ---- memory --------------------------------------------------------------------------------------

/// The sizes of so many of the first allocations are kept.
pub const SIZES_KEPT: usize = 16;

/// Watches the allocations of one call. While it is armed it records the peak of
/// the bytes live and the number of allocations.
#[derive(Clone, Copy, Debug)]
pub struct CountingAlloc {
    pub armed: bool,
    pub current: usize,
    pub peak: usize,
    pub count: u64,
    pub sizes: [usize; 16],
}

/// What was seen while armed.
#[derive(Clone, Copy, Debug)]
pub struct AllocStats {
    pub peak: usize,
    pub allocs: u64,
    /// Bytes still live at the end: 0 unless the sort leaked.
    pub leak: usize,
    /// The sizes of the first allocations, in order.
    pub sizes: [usize; 16],
}

impl CountingAlloc {
    /// Not armed.
    pub fn new() -> (r: Self)
        ensures
            !r.armed,
            r.current == 0 && r.peak == 0 && r.count == 0,
    {
        CountingAlloc { armed: false, current: 0, peak: 0, count: 0, sizes: [0usize; 16] }
    }

    /// `bytes` bytes were allocated. What is live stays at the top of its range.
    pub fn grow(&mut self, bytes: usize)
        ensures
            !old(self).armed ==> *final(self) == *old(self),
            old(self).armed ==> {
                let cur = if old(self).current + bytes > usize::MAX {
                    usize::MAX as int
                } else {
                    old(self).current + bytes
                };
                &&& final(self).armed
                &&& final(self).current == cur
                &&& final(self).peak == if cur > old(self).peak {
                    cur
                } else {
                    old(self).peak as int
                }
                &&& final(self).count == old(self).count.wrapping_add(1)
                &&& final(self).sizes@ == if old(self).count < SIZES_KEPT {
                    old(self).sizes@.update(old(self).count as int, bytes)
                } else {
                    old(self).sizes@
                }
            },
    {
        if !self.armed {
            return;
        }
        self.current = if bytes > usize::MAX - self.current {
            usize::MAX
        } else {
            self.current + bytes
        };
        if self.current > self.peak {
            self.peak = self.current;
        }
        if self.count < SIZES_KEPT as u64 {
            self.sizes[self.count as usize] = bytes;
        }
        self.count = self.count.wrapping_add(1);
    }

    /// `bytes` bytes were freed. What is live never goes below nothing.
    pub fn shrink(&mut self, bytes: usize)
        ensures
            !old(self).armed ==> *final(self) == *old(self),
            old(self).armed ==> {
                &&& final(self).armed
                &&& final(self).current == if bytes > old(self).current {
                    0
                } else {
                    old(self).current - bytes
                }
                &&& final(self).peak == old(self).peak
                &&& final(self).count == old(self).count
                &&& final(self).sizes@ == old(self).sizes@
            },
    {
        if !self.armed {
            return;
        }
        self.current = if bytes > self.current {
            0
        } else {
            self.current - bytes
        };
    }
}

/// Starts to record.
pub fn alloc_arm(w: &mut CountingAlloc)
    ensures
        final(w).armed,
        final(w).current == 0 && final(w).peak == 0 && final(w).count == 0,
        final(w).sizes@ == Seq::new(16, |i: int| 0usize),
{
    w.current = 0;
    w.peak = 0;
    w.count = 0;
    w.sizes = [0usize; 16];
    w.armed = true;
    assert(w.sizes@ =~= Seq::new(16, |i: int| 0usize));
}

/// Stops to record, and says what was seen.
pub fn alloc_disarm(w: &mut CountingAlloc) -> (r: AllocStats)
    ensures
        *final(w) == (CountingAlloc { armed: false, ..*old(w) }),
        r.peak == old(w).peak,
        r.allocs == old(w).count,
        r.leak == old(w).current,
        r.sizes@ == old(w).sizes@,
{
    w.armed = false;
    AllocStats { peak: w.peak, allocs: w.count, leak: w.current, sizes: w.sizes }
}

// ---- comparisons and key reads -------------------------------------------------------------------

/// The comparisons of a sort, seen in the comparator it is given, and its key
/// reads, seen in its key function. A flip is an outcome different from the one
/// before.
#[derive(Clone, Copy, PartialEq, Eq, Debug, Structural)]
pub struct Counters {
    pub compares: u64,
    pub flips: u64,
    pub last: Option<bool>,
    pub key_reads: u64,
}

impl Counters {
    /// Nothing counted yet.
    pub open spec fn none() -> Counters {
        Counters { compares: 0, flips: 0, last: None, key_reads: 0 }
    }

    /// One comparison more, with outcome `less`.
    pub open spec fn compared(self, less: bool) -> Counters {
        Counters {
            compares: self.compares.saturating_add(1),
            flips: if self.last == Some(!less) {
                self.flips.wrapping_add(1)
            } else {
                self.flips
            },
            last: Some(less),
            key_reads: self.key_reads,
        }
    }

    /// Nothing counted yet.
    pub fn new() -> (r: Self)
        ensures
            r == Self::none(),
    {
        Counters { compares: 0, flips: 0, last: None, key_reads: 0 }
    }

    /// Starts again.
    pub fn reset_counters(&mut self)
        ensures
            *final(self) == Self::none(),
    {
        self.compares = 0;
        self.flips = 0;
        self.last = None;
        self.key_reads = 0;
    }

    /// One comparison with outcome `less`.
    pub fn note_compare(&mut self, less: bool)
        ensures
            *final(self) == old(self).compared(less),
    {
        self.compares = self.compares.saturating_add(1);
        if let Some(was) = self.last {
            if was != less {
                self.flips = self.flips.wrapping_add(1);
            }
        }
        self.last = Some(less);
    }

    /// One read of a key.
    pub fn note_key(&mut self)
        ensures
            *final(self) == (Counters { key_reads: old(self).key_reads.wrapping_add(1), ..*old(self) }),
    {
        self.key_reads = self.key_reads.wrapping_add(1);
    }
}

// ---- decisions -----------------------------------------------------------------------------------

/// Deterministic facts about how a run went.
#[derive(Clone, Copy, Debug, PartialEq, Eq, Structural)]
pub struct AlgoStats {
    pub depth: u32,
    pub max_depth: u32,
    pub first_route: u8,
    pub sorted: u64,
    pub reverse: u64,
    pub runs: u64,
    pub displaced: u64,
    pub radix: u64,
    pub giveups: u64,
    pub splits: u64,
    pub split_retries: u64,
    pub part_sorts: u64,
    pub dict_tries: u64,
    pub dict_hits: u64,
    pub plan_retries: u64,
    pub radix_passes: u64,
    pub passes_skipped: u64,
}

impl AlgoStats {
    /// Nothing happened yet.
    pub open spec fn none() -> AlgoStats {
        AlgoStats {
            depth: 0,
            max_depth: 0,
            first_route: 0,
            sorted: 0,
            reverse: 0,
            runs: 0,
            displaced: 0,
            radix: 0,
            giveups: 0,
            splits: 0,
            split_retries: 0,
            part_sorts: 0,
            dict_tries: 0,
            dict_hits: 0,
            plan_retries: 0,
            radix_passes: 0,
            passes_skipped: 0,
        }
    }

    /// Nothing happened yet.
    pub fn new() -> (r: Self)
        ensures
            r == Self::none(),
    {
        AlgoStats {
            depth: 0,
            max_depth: 0,
            first_route: 0,
            sorted: 0,
            reverse: 0,
            runs: 0,
            displaced: 0,
            radix: 0,
            giveups: 0,
            splits: 0,
            split_retries: 0,
            part_sorts: 0,
            dict_tries: 0,
            dict_hits: 0,
            plan_retries: 0,
            radix_passes: 0,
            passes_skipped: 0,
        }
    }

    /// `n` more of something.
    pub open spec fn counted(self, s: Stat, n: u64) -> AlgoStats {
        match s {
            Stat::Giveups => AlgoStats { giveups: self.giveups.wrapping_add(n), ..self },
            Stat::Splits => AlgoStats { splits: self.splits.wrapping_add(n), ..self },
            Stat::SplitRetries => AlgoStats { split_retries: self.split_retries.wrapping_add(n), ..self },
            Stat::PartSorts => AlgoStats { part_sorts: self.part_sorts.wrapping_add(n), ..self },
            Stat::DictTries => AlgoStats { dict_tries: self.dict_tries.wrapping_add(n), ..self },
            Stat::DictHits => AlgoStats { dict_hits: self.dict_hits.wrapping_add(n), ..self },
            Stat::PlanRetries => AlgoStats { plan_retries: self.plan_retries.wrapping_add(n), ..self },
            Stat::RadixPasses => AlgoStats { radix_passes: self.radix_passes.wrapping_add(n), ..self },
            Stat::PassesSkipped => AlgoStats { passes_skipped: self.passes_skipped.wrapping_add(n), ..self },
        }
    }

    /// One recursion deeper.
    pub open spec fn deeper(self) -> AlgoStats {
        let depth = self.depth.wrapping_add(1);
        AlgoStats {
            depth,
            max_depth: if depth > self.max_depth {
                depth
            } else {
                self.max_depth
            },
            ..self
        }
    }

    /// One more range that took a route; the first of them is remembered.
    pub open spec fn routed(self, r: u8) -> AlgoStats {
        let first_route = if self.first_route == 0 {
            r
        } else {
            self.first_route
        };
        if r == 1 {
            AlgoStats { first_route, sorted: self.sorted.wrapping_add(1), ..self }
        } else if r == 2 {
            AlgoStats { first_route, reverse: self.reverse.wrapping_add(1), ..self }
        } else if r == 3 {
            AlgoStats { first_route, runs: self.runs.wrapping_add(1), ..self }
        } else if r == 4 {
            AlgoStats { first_route, displaced: self.displaced.wrapping_add(1), ..self }
        } else if r == 5 {
            AlgoStats { first_route, radix: self.radix.wrapping_add(1), ..self }
        } else {
            AlgoStats { first_route, ..self }
        }
    }
}

/// What a sort reads and writes.
#[derive(Clone, Copy, PartialEq, Eq, Debug, Structural)]
pub struct Traffic {
    /// Elements read.
    pub reads: u64,
    /// Elements written.
    pub writes: u64,
    /// Table entries read.
    pub table_reads: u64,
    /// Table entries written.
    pub table_writes: u64,
    /// Bytes of the table entries.
    pub table_bytes: u64,
    /// Bytes of keys outside the elements.
    pub key_bytes: u64,
}

impl Traffic {
    /// Nothing yet.
    pub open spec fn none() -> Traffic {
        Traffic { reads: 0, writes: 0, table_reads: 0, table_writes: 0, table_bytes: 0, key_bytes: 0 }
    }

    /// Nothing yet.
    pub fn new() -> (r: Self)
        ensures
            r == Self::none(),
    {
        Traffic { reads: 0, writes: 0, table_reads: 0, table_writes: 0, table_bytes: 0, key_bytes: 0 }
    }

    /// All bytes that moved, with elements of `size` bytes.
    pub open spec fn moved(self, size: u64) -> u64 {
        self.reads.wrapping_add(self.writes).wrapping_mul(size).wrapping_add(self.table_bytes).wrapping_add(self.key_bytes)
    }

    /// All bytes that moved, with elements of `size` bytes.
    pub fn bytes(&self, size: u64) -> (r: u64)
        ensures
            r == self.moved(size),
    {
        self.reads.wrapping_add(self.writes).wrapping_mul(size).wrapping_add(self.table_bytes).wrapping_add(self.key_bytes)
    }
}

/// What is on record of a sort, but for the places.
#[derive(Clone, Copy, PartialEq, Eq, Debug, Structural)]
pub struct Tally {
    /// What it decided.
    pub stats: AlgoStats,
    /// Its comparisons.
    pub counters: Counters,
    /// What it read and wrote.
    pub traffic: Traffic,
}

impl Tally {
    /// Nothing on record yet.
    pub open spec fn none() -> Tally {
        Tally { stats: AlgoStats::none(), counters: Counters::none(), traffic: Traffic::none() }
    }
}

/// The hooks that record what a sort decides, compares, reads and writes, and
/// where.
pub struct TraceHooks {
    /// What it decided.
    pub stats: AlgoStats,
    /// Its comparisons.
    pub counters: Counters,
    /// What it read and wrote.
    pub traffic: Traffic,
    /// Where it read and wrote.
    pub places: Places,
}

/// Places are told apart by their low 63 bits: no machine has more.
pub const PLACES: u64 = 0x8000_0000_0000_0000;

/// The place of an address.
pub open spec fn spot_of(a: usize) -> u64 {
    (a as u64 % PLACES) as u64
}

/// The place of an address.
fn spot(a: usize) -> (r: u64)
    ensures
        r == spot_of(a),
        r < PLACES,
{
    a as u64 % PLACES
}

/// Where the element `i` of a slice lies.
fn place_at<U>(s: &[U], i: usize) -> (r: u64)
    ensures
        r < PLACES,
{
    (place_of(s) as u64).wrapping_add((i as u64).wrapping_mul(core::mem::size_of::<U>() as u64)) % PLACES
}

/// The buffers that are watched from the start: the array of `bytes` bytes at `a`
/// and, where there is one, the pool of so many bytes at `p`. One that is too large
/// is left out.
pub open spec fn first_regions(a: u64, bytes: u64, p: u64, pool: Option<u64>) -> Seq<Region> {
    let array = if bytes <= MAX_BYTES {
        seq![region_of(a, bytes, 1)]
    } else {
        seq![region_of(0, 0, 1)]
    };
    match pool {
        Some(k) => if k <= MAX_BYTES {
            array.push(region_of(p, k, 2))
        } else {
            array
        },
        None => array,
    }
}

/// Those buffers are watched, at some places.
pub open spec fn watches_first(places: &Places, bytes: u64, pool: Option<u64>) -> bool {
    exists|a: u64, p: u64| a < PLACES && p < PLACES && places.now().regions@ == #[trigger] first_regions(a, bytes, p, pool)
}

impl TraceHooks {
    /// Nothing recorded yet; the elements of `array` are the ones to be sorted,
    /// and `pool` is where their keys lie, where that is outside of them.
    pub fn new<U>(array: &[U], pool: Option<&[u8]>) -> (r: Self)
        ensures
            r.stats == AlgoStats::none(),
            r.counters == Counters::none(),
            r.traffic == Traffic::none(),
            r.places.running(),
            r.places.now().hash == FNV_OFFSET,
            r.places.now().unmapped == 0,
            r.places.now().cache.state() == CacheModel::empty(),
            r.buffers() == if pool matches Some(p) && p@.len() <= MAX_BYTES {
                2int
            } else {
                1int
            },
            array@.len() * vstd::layout::size_of::<U>() <= u64::MAX ==> watches_first(
                &r.places,
                (array@.len() * vstd::layout::size_of::<U>()) as u64,
                match pool {
                    Some(p) => Some(p@.len() as u64),
                    None => None,
                },
            ),
    {
        let bytes: u64 = (array.len() as u64).wrapping_mul(core::mem::size_of::<U>() as u64);
        let at: u64 = spot(place_of(array));
        let mut places: Places = Places::new(at, bytes);
        let mut beside: u64 = 0;
        proof {
            reveal_with_fuel(free_slot, 3);
        }
        if let Some(p) = pool {
            beside = spot(place_of(p));
            places.watch(beside, p.len() as u64);
        }
        proof {
            let size = match pool {
                Some(p) => Some(p@.len() as u64),
                None => None,
            };
            assert(array@.len() * vstd::layout::size_of::<U>() <= u64::MAX ==> places.now().regions@ =~= first_regions(at, bytes, beside, size));
        }
        TraceHooks { stats: AlgoStats::new(), counters: Counters::new(), traffic: Traffic::new(), places }
    }
}

/// An access of kind `op` to an entry of a table was recorded, where there was
/// one.
pub open spec fn entry_noted(before: &Places, now: &Places, a: u64, bytes: int, op: u64, done: bool) -> bool {
    if done {
        now.took(before, a, bytes, op)
    } else {
        *now == *before
    }
}

/// The kind of a sweep.
pub open spec fn sweep_op(read: bool, write: bool) -> u64 {
    if read && write {
        6
    } else if read {
        3
    } else {
        4
    }
}

impl Hooks for TraceHooks {
    type Tally = Tally;

    open spec fn records() -> bool {
        true
    }

    open spec fn tally(self) -> Tally {
        Tally { stats: self.stats, counters: self.counters, traffic: self.traffic }
    }

    open spec fn after(t: Tally, note: Note) -> Tally {
        match note {
            Note::Read => Tally { traffic: Traffic { reads: t.traffic.reads.saturating_add(1), ..t.traffic }, ..t },
            Note::Write => Tally { traffic: Traffic { writes: t.traffic.writes.wrapping_add(1), ..t.traffic }, ..t },
            Note::Table { reads, writes, bytes } => Tally {
                traffic: Traffic {
                    table_reads: t.traffic.table_reads.wrapping_add(reads as u64),
                    table_writes: t.traffic.table_writes.wrapping_add(writes as u64),
                    table_bytes: t.traffic.table_bytes.wrapping_add((reads as u64).wrapping_add(writes as u64).wrapping_mul(bytes as u64)),
                    ..t.traffic
                },
                ..t
            },
            Note::Key(bytes) => Tally { traffic: Traffic { key_bytes: t.traffic.key_bytes.wrapping_add(bytes), ..t.traffic }, ..t },
            Note::Compare(less) => Tally { counters: t.counters.compared(less), ..t },
            Note::Count(s, n) => Tally { stats: t.stats.counted(s, n), ..t },
            Note::Route(r) => Tally { stats: t.stats.routed(r), ..t },
            Note::Enter => Tally { stats: t.stats.deeper(), ..t },
            Note::Leave => Tally { stats: AlgoStats { depth: t.stats.depth.wrapping_sub(1), ..t.stats }, ..t },
        }
    }

    proof fn one_record(a: Tally, b: Tally) {
    }

    open spec fn reads(self) -> int {
        self.traffic.reads as int
    }

    open spec fn compares(self) -> int {
        self.counters.compares as int
    }

    open spec fn depth(self) -> nat {
        self.stats.depth as nat
    }

    open spec fn deepest(self) -> nat {
        self.stats.max_depth as nat
    }

    open spec fn route(self) -> int {
        self.stats.first_route as int
    }

    open spec fn buffers(self) -> int {
        self.places.buffers()
    }

    fn counted() -> (r: bool) {
        true
    }

    fn on_read<U>(&mut self, s: &[U], i: usize)
        ensures
            exists|a: u64| final(self).places.took(&old(self).places, a, vstd::layout::size_of::<U>() as int, 1),
    {
        self.traffic.reads = self.traffic.reads.saturating_add(1);
        let a: u64 = place_at(s, i);
        self.places.element(a, core::mem::size_of::<U>() as u64, false);
        assert(self.places.took(&old(self).places, a, vstd::layout::size_of::<U>() as int, 1));
    }

    fn on_write<U>(&mut self, s: &[U], i: usize)
        ensures
            exists|a: u64| final(self).places.took(&old(self).places, a, vstd::layout::size_of::<U>() as int, 2),
    {
        self.traffic.writes = self.traffic.writes.wrapping_add(1);
        let a: u64 = place_at(s, i);
        self.places.element(a, core::mem::size_of::<U>() as u64, true);
        assert(self.places.took(&old(self).places, a, vstd::layout::size_of::<U>() as int, 2));
    }

    fn on_table<U>(&mut self, s: &[U], i: usize, bytes: usize, read: bool, write: bool)
        ensures
            exists|a: u64, between: Places| #[trigger]
                entry_noted(&old(self).places, &between, a, bytes as int, 3, read) && entry_noted(&between, &final(self).places, a, bytes as int, 4, write),
    {
        let a: u64 = place_at(s, i);
        let r: u64 = if read {
            1
        } else {
            0
        };
        let w: u64 = if write {
            1
        } else {
            0
        };
        self.traffic.table_reads = self.traffic.table_reads.wrapping_add(r);
        self.traffic.table_writes = self.traffic.table_writes.wrapping_add(w);
        self.traffic.table_bytes = self.traffic.table_bytes.wrapping_add(r.wrapping_add(w).wrapping_mul(bytes as u64));
        if read {
            self.places.entry(a, bytes as u64, false);
        }
        let ghost between = self.places;
        if write {
            self.places.entry(a, bytes as u64, true);
        }
        assert(entry_noted(&old(self).places, &between, a, bytes as int, 3, read) && entry_noted(&between, &self.places, a, bytes as int, 4, write));
    }

    fn on_table_sweep<U>(&mut self, s: &[U], entries: usize, bytes: usize, read: bool, write: bool)
        ensures
            exists|a: u64| #[trigger] final(self).places.took(&old(self).places, a, entries * bytes, sweep_op(read, write)),
    {
        let r: u64 = if read {
            entries as u64
        } else {
            0
        };
        let w: u64 = if write {
            entries as u64
        } else {
            0
        };
        self.traffic.table_reads = self.traffic.table_reads.wrapping_add(r);
        self.traffic.table_writes = self.traffic.table_writes.wrapping_add(w);
        self.traffic.table_bytes = self.traffic.table_bytes.wrapping_add(r.wrapping_add(w).wrapping_mul(bytes as u64));
        let a: u64 = spot(place_of(s));
        self.places.sweep(a, entries as u64, bytes as u64, read, write);
        assert(self.places.took(&old(self).places, a, entries * bytes, sweep_op(read, write)));
    }

    fn on_key(&mut self, at: usize, bytes: u64)
        ensures
            final(self).places.took(&old(self).places, spot_of(at), bytes as int, 5),
    {
        self.traffic.key_bytes = self.traffic.key_bytes.wrapping_add(bytes);
        self.places.key(spot(at), bytes);
    }

    fn on_key_pair(&mut self, a: usize, b: usize, bytes: u64)
        ensures
            exists|between: Places| #[trigger]
                between.took(&old(self).places, spot_of(a), bytes as int / 2, 5) && final(self).places.took(&between, spot_of(b), bytes as int / 2, 5),
    {
        self.traffic.key_bytes = self.traffic.key_bytes.wrapping_add(bytes);
        self.places.key(spot(a), bytes / 2);
        let ghost between = self.places;
        self.places.key(spot(b), bytes / 2);
        assert(between.took(&old(self).places, spot_of(a), bytes as int / 2, 5) && self.places.took(&between, spot_of(b), bytes as int / 2, 5));
    }

    fn on_compare(&mut self, less: bool) {
        self.counters.note_compare(less);
        self.places.compare(less);
    }

    fn on_alloc<U>(&mut self, s: &[U], n: usize) {
        self.places.watch(spot(place_of(s)), (n as u64).wrapping_mul(core::mem::size_of::<U>() as u64));
    }

    fn on_free<U>(&mut self, s: &[U]) {
        self.places.unwatch(spot(place_of(s)));
    }

    fn stat(&mut self, s: Stat, n: u64) {
        match s {
            Stat::Giveups => self.stats.giveups = self.stats.giveups.wrapping_add(n),
            Stat::Splits => self.stats.splits = self.stats.splits.wrapping_add(n),
            Stat::SplitRetries => self.stats.split_retries = self.stats.split_retries.wrapping_add(n),
            Stat::PartSorts => self.stats.part_sorts = self.stats.part_sorts.wrapping_add(n),
            Stat::DictTries => self.stats.dict_tries = self.stats.dict_tries.wrapping_add(n),
            Stat::DictHits => self.stats.dict_hits = self.stats.dict_hits.wrapping_add(n),
            Stat::PlanRetries => self.stats.plan_retries = self.stats.plan_retries.wrapping_add(n),
            Stat::RadixPasses => self.stats.radix_passes = self.stats.radix_passes.wrapping_add(n),
            Stat::PassesSkipped => self.stats.passes_skipped = self.stats.passes_skipped.wrapping_add(n),
        }
    }

    fn note_route(&mut self, r: u8) {
        if self.stats.first_route == 0 {
            self.stats.first_route = r;
        }
        match r {
            1 => self.stats.sorted = self.stats.sorted.wrapping_add(1),
            2 => self.stats.reverse = self.stats.reverse.wrapping_add(1),
            3 => self.stats.runs = self.stats.runs.wrapping_add(1),
            4 => self.stats.displaced = self.stats.displaced.wrapping_add(1),
            5 => self.stats.radix = self.stats.radix.wrapping_add(1),
            _ => {},
        }
    }

    fn enter_depth(&mut self) {
        self.stats.depth = self.stats.depth.wrapping_add(1);
        if self.stats.depth > self.stats.max_depth {
            self.stats.max_depth = self.stats.depth;
        }
    }

    fn leave_depth(&mut self) {
        self.stats.depth = self.stats.depth.wrapping_sub(1);
    }
}

/// The bytes of arrays taken together.
pub open spec fn total(asked: Seq<nat>) -> nat
    decreases asked.len(),
{
    if asked.len() == 0 {
        0
    } else {
        total(asked.drop_last()) + asked.last()
    }
}

/// What a watch shows of memory that gave every array of `asked` in turn: how
/// many they are, as far as a 64-bit count tells, and the sizes of the first ones,
/// and a peak that no array exceeds and all of them together do not stay below.
pub open spec fn watched_all(stats: AllocStats, asked: Seq<nat>) -> bool {
    &&& stats.allocs == asked.len() as int % 0x1_0000_0000_0000_0000
    &&& asked.len() <= u64::MAX ==> forall|i: int| 0 <= i < SIZES_KEPT && i < asked.len() ==> #[trigger] stats.sizes@[i] == asked[i]
    &&& forall|i: int| 0 <= i < asked.len() ==> #[trigger] asked[i] <= stats.peak
    &&& stats.peak <= total(asked)
}

/// Memory that is watched: every array of a sort counts towards the peak.
pub struct TraceAlloc {
    watch: CountingAlloc,
    refused: u64,
    times: Ghost<nat>,
    log: Ghost<Seq<nat>>,
    given: Ghost<Seq<nat>>,
}

impl TraceAlloc {
    /// The watch shows the arrays that were given.
    #[verifier::type_invariant]
    spec fn in_step(self) -> bool {
        let given = self.given@;
        &&& self.watch.armed
        &&& self.watch.current <= self.watch.peak <= total(given)
        &&& self.watch.count == given.len() as int % 0x1_0000_0000_0000_0000
        &&& given.len() <= u64::MAX ==> forall|i: int| 0 <= i < SIZES_KEPT && i < given.len() ==> #[trigger] self.watch.sizes@[i] == given[i]
        &&& forall|i: int| 0 <= i < given.len() ==> #[trigger] given[i] <= self.watch.peak
        &&& self.times@ == 0 <==> self.refused == 0
        &&& self.times@ == 0 ==> given == self.log@
    }

    /// Watches from now on.
    pub fn new() -> (r: Self)
        ensures
            r.refusals() == 0,
            r.held() == 0,
            r.asked() == Seq::<nat>::empty(),
            r.most_held() == 0,
    {
        let mut watch: CountingAlloc = CountingAlloc::new();
        alloc_arm(&mut watch);
        TraceAlloc { watch, refused: 0, times: Ghost(0), log: Ghost(Seq::empty()), given: Ghost(Seq::empty()) }
    }

    /// What was seen so far.
    pub fn so_far(&self) -> (r: AllocStats)
        ensures
            r.leak == self.held(),
            r.peak >= self.held(),
            r.peak == self.most_held(),
            self.refusals() == 0 ==> watched_all(r, self.asked()),
    {
        proof {
            use_type_invariant(self);
        }
        let mut watch: CountingAlloc = self.watch;
        alloc_disarm(&mut watch)
    }

    /// How often memory was refused.
    pub fn refused(&self) -> (r: u64)
        ensures
            r == 0 <==> self.refusals() == 0,
    {
        proof {
            use_type_invariant(self);
        }
        self.refused
    }

    /// Memory was refused once more.
    fn count_refusal(&mut self)
        ensures
            final(self).refusals() == old(self).refusals() + 1,
            final(self).held() == old(self).held(),
            final(self).asked() == old(self).asked(),
    {
        proof {
            use_type_invariant(&*self);
        }
        *self = TraceAlloc {
            watch: self.watch,
            refused: self.refused.saturating_add(1),
            times: Ghost(self.times@ + 1),
            log: Ghost(self.log@),
            given: Ghost(self.given@),
        };
    }
}

impl Alloc for TraceAlloc {
    closed spec fn refusals(&self) -> nat {
        self.times@
    }

    closed spec fn held(&self) -> nat {
        self.watch.current as nat
    }

    closed spec fn asked(&self) -> Seq<nat> {
        self.log@
    }

    closed spec fn most_held(&self) -> nat {
        self.watch.peak as nat
    }

    fn allocate(&mut self, bytes: usize) -> (r: bool)
        ensures
            r == (old(self).held() + bytes <= usize::MAX),
    {
        proof {
            use_type_invariant(&*self);
        }
        if bytes > usize::MAX - self.watch.current {
            *self = TraceAlloc {
                watch: self.watch,
                refused: self.refused.saturating_add(1),
                times: Ghost(self.times@ + 1),
                log: Ghost(self.log@.push(bytes as nat)),
                given: Ghost(self.given@),
            };
            return false;
        }
        let mut watch: CountingAlloc = self.watch;
        watch.grow(bytes);
        proof {
            assert(self.given@.push(bytes as nat).drop_last() =~= self.given@);
        }
        *self = TraceAlloc {
            watch,
            refused: self.refused,
            times: Ghost(self.times@),
            log: Ghost(self.log@.push(bytes as nat)),
            given: Ghost(self.given@.push(bytes as nat)),
        };
        true
    }

    fn refuse(&mut self, bytes: usize) {
        self.count_refusal();
    }

    fn oversize(&mut self, n: usize, size: usize, align: usize) {
        self.count_refusal();
    }

    fn deallocate(&mut self, bytes: usize) {
        proof {
            use_type_invariant(&*self);
        }
        let mut watch: CountingAlloc = self.watch;
        watch.shrink(bytes);
        *self = TraceAlloc {
            watch,
            refused: self.refused,
            times: Ghost(self.times@),
            log: Ghost(self.log@),
            given: Ghost(self.given@),
        };
    }
}

} // verus!
