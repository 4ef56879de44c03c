//! How a sort is watched: the accesses to its arrays, fed to a fixed cache model,
//! and the decisions that it took.
//!
//! The cache model has 64-byte lines and true LRU, an L1 of 32 KiB in 8 ways and
//! an L2 of 1 MiB in 16 ways, probed only on an L1 miss. Addresses are not real:
//! every buffer (the array, each scratch allocation, the string pool) gets its
//! own base at a 4 GiB boundary in the order it was registered.
use crate::bench::{FNV_OFFSET, FNV_PRIME};
use vstd::prelude::*;

verus! {

// ---- the cache model -----------------------------------------------------------------------------

/// The lines of a cache and when each was last used.
pub struct Lines {
    pub tags: Seq<u64>,
    pub stamps: Seq<u64>,
}

/// The first of the ways from `w` on that holds the line, or how many there are.
pub open spec fn way_of(tags: Seq<u64>, line: u64, w: int) -> int
    decreases tags.len() - w,
{
    if w >= tags.len() || tags[w] == line {
        w
    } else {
        way_of(tags, line, w + 1)
    }
}

/// The first of the ways with the least stamp.
pub open spec fn is_oldest(stamps: Seq<u64>, v: int) -> bool {
    &&& 0 <= v < stamps.len()
    &&& forall|k: int| 0 <= k < stamps.len() ==> stamps[v] <= #[trigger] stamps[k]
    &&& forall|k: int| 0 <= k < v ==> stamps[v] < #[trigger] stamps[k]
}

/// The first of the ways with the least stamp: the least recently used one.
pub open spec fn oldest(stamps: Seq<u64>) -> int {
    choose|v: int| is_oldest(stamps, v)
}

/// There is one way that is the oldest.
proof fn lemma_oldest(stamps: Seq<u64>, v: int)
    requires
        is_oldest(stamps, v),
    ensures
        oldest(stamps) == v,
{
    let u = oldest(stamps);
    assert(is_oldest(stamps, u));
    assert(stamps[u] <= stamps[v] && stamps[v] <= stamps[u]);
}

impl Lines {
    /// The ways of the set of a line, where there are `sets` sets of `ways`
    /// ways.
    pub open spec fn set_of(self, sets: int, ways: int, line: u64) -> Lines {
        let b = (line as int % sets) * ways;
        Lines { tags: self.tags.subrange(b, b + ways), stamps: self.stamps.subrange(b, b + ways) }
    }

    /// Whether a line is there.
    pub open spec fn holds(self, sets: int, ways: int, line: u64) -> bool {
        way_of(self.set_of(sets, ways, line).tags, line, 0) < ways
    }

    /// The lines after one of them was used: it is the most recently used of its
    /// set, in the place of the least recently used one where it was not there.
    pub open spec fn used(self, sets: int, ways: int, line: u64, now: u64) -> Lines {
        let b = (line as int % sets) * ways;
        let set = self.set_of(sets, ways, line);
        if self.holds(sets, ways, line) {
            Lines { tags: self.tags, stamps: self.stamps.update(b + way_of(set.tags, line, 0), now) }
        } else {
            let v = oldest(set.stamps);
            Lines { tags: self.tags.update(b + v, line), stamps: self.stamps.update(b + v, now) }
        }
    }
}

/// A level of the cache.
pub struct Level {
    sets: usize,
    ways: usize,
    tag: Vec<u64>,
    stamp: Vec<u64>,
}

impl Level {
    /// Its lines.
    pub closed spec fn lines(&self) -> Lines {
        Lines { tags: self.tag@, stamps: self.stamp@ }
    }

    /// How many sets and ways it has.
    pub closed spec fn size(&self) -> (int, int) {
        (self.sets as int, self.ways as int)
    }

    /// Every set has its ways.
    pub open spec fn wf(&self) -> bool {
        let (s, w) = self.size();
        &&& 0 < s
        &&& 0 < w
        &&& s * w <= usize::MAX
        &&& self.lines().tags.len() == s * w
        &&& self.lines().stamps.len() == s * w
    }

    /// An empty level.
    pub fn new(sets: usize, ways: usize) -> (r: Self)
        requires
            0 < sets,
            0 < ways,
            sets * ways <= usize::MAX,
        ensures
            r.wf(),
            r.size() == (sets as int, ways as int),
            r.lines().tags == Seq::new((sets * ways) as nat, |i: int| u64::MAX),
            r.lines().stamps == Seq::new((sets * ways) as nat, |i: int| 0u64),
    {
        let n: usize = sets * ways;
        let mut tag: Vec<u64> = Vec::with_capacity(n);
        let mut stamp: Vec<u64> = Vec::with_capacity(n);
        while tag.len() < n
            invariant
                tag@.len() <= n,
                stamp@.len() == tag@.len(),
                forall|i: int| 0 <= i < tag@.len() ==> tag@[i] == u64::MAX && stamp@[i] == 0,
            decreases n - tag@.len(),
        {
            tag.push(u64::MAX);
            stamp.push(0);
        }
        let r = Level { sets, ways, tag, stamp };
        assert(r.lines().tags =~= Seq::new((sets * ways) as nat, |i: int| u64::MAX));
        assert(r.lines().stamps =~= Seq::new((sets * ways) as nat, |i: int| 0u64));
        r
    }

    /// Uses a line: true where it is there. The least recently used line of its
    /// set makes room for it where it is not.
    pub fn access(&mut self, line: u64, now: u64) -> (r: bool)
        requires
            old(self).wf(),
        ensures
            final(self).wf(),
            final(self).size() == old(self).size(),
            r == old(self).lines().holds(old(self).size().0, old(self).size().1, line),
            final(self).lines() == old(self).lines().used(old(self).size().0, old(self).size().1, line, now),
    {
        let ghost o = *self;
        let sets: usize = self.sets;
        let ways: usize = self.ways;
        let set: usize = (line % (sets as u64)) as usize;
        let ghost b = (line as int % sets as int) * ways;
        assert(b == set * ways);
        assert(set * ways + ways <= sets * ways) by (nonlinear_arith)
            requires
                set < sets,
        ;
        let s: usize = set * ways;
        let ghost ts = self.lines().set_of(sets as int, ways as int, line).tags;
        let ghost ss = self.lines().set_of(sets as int, ways as int, line).stamps;
        let mut victim: usize = 0;
        let mut w: usize = 0;
        while w < ways
            invariant
                *self == o,
                o == *old(self),
                sets == self.sets,
                ways == self.ways,
                o.wf(),
                b == (line as int % sets as int) * ways,
                s == b,
                s + ways <= self.tag@.len(),
                self.tag@.len() == self.stamp@.len(),
                ts == self.tag@.subrange(b, b + ways),
                ss == self.stamp@.subrange(b, b + ways),
                w <= ways,
                victim < ways,
                w == 0 ==> victim == 0,
                w > 0 ==> victim < w,
                way_of(ts, line, 0) == way_of(ts, line, w as int),
                forall|k: int| 0 <= k < w ==> ss[victim as int] <= #[trigger] ss[k],
                forall|k: int| 0 <= k < victim ==> ss[victim as int] < #[trigger] ss[k],
            decreases ways - w,
        {
            assert(self.tag@[s + w] == ts[w as int]);
            assert(self.stamp@[s + w] == ss[w as int]);
            assert(self.stamp@[s + victim] == ss[victim as int]);
            if self.tag[s + w] == line {
                self.stamp.set(s + w, now);
                return true;
            }
            if self.stamp[s + w] < self.stamp[s + victim] {
                victim = w;
            }
            w += 1;
        }
        self.tag.set(s + victim, line);
        self.stamp.set(s + victim, now);
        proof {
            lemma_oldest(ss, victim as int);
        }
        false
    }
}

/// The state of the cache model.
pub struct CacheState {
    pub l1: Lines,
    pub l2: Lines,
    pub now: int,
    pub l1_misses: int,
    pub l2_misses: int,
}

impl CacheState {
    /// After one line was used: L2 is probed only on an L1 miss.
    pub open spec fn line_used(self, line: u64) -> CacheState {
        let now = self.now + 1;
        let l1 = self.l1.used(64, 8, line, now as u64);
        if self.l1.holds(64, 8, line) {
            CacheState { l1, now, ..self }
        } else if self.l2.holds(1024, 16, line) {
            CacheState { l1, l2: self.l2.used(1024, 16, line, now as u64), now, l1_misses: self.l1_misses + 1, ..self }
        } else {
            CacheState {
                l1,
                l2: self.l2.used(1024, 16, line, now as u64),
                now,
                l1_misses: self.l1_misses + 1,
                l2_misses: self.l2_misses + 1,
            }
        }
    }

    /// After `n` lines from `first` on were used.
    pub open spec fn lines_used(self, first: int, n: nat) -> CacheState
        decreases n,
    {
        if n == 0 {
            self
        } else {
            self.lines_used(first, (n - 1) as nat).line_used((first + n - 1) as u64)
        }
    }

    /// After `bytes` bytes from `va` on were used.
    pub open spec fn bytes_used(self, va: int, bytes: int) -> CacheState {
        self.lines_used(va / 64, ((va + bytes - 1) / 64 - va / 64 + 1) as nat)
    }
}

/// Every line that is used counts once, and misses at most once in each level.
pub proof fn misses_bounded(c: CacheState, first: int, n: nat)
    ensures
        c.lines_used(first, n).now == c.now + n,
        c.l1_misses <= c.lines_used(first, n).l1_misses <= c.l1_misses + n,
        c.l2_misses <= c.lines_used(first, n).l2_misses,
        c.lines_used(first, n).l2_misses - c.l2_misses <= c.lines_used(first, n).l1_misses - c.l1_misses,
    decreases n,
{
    if n > 0 {
        misses_bounded(c, first, (n - 1) as nat);
    }
}

/// The cache model.
pub struct CacheModel {
    l1: Level,
    l2: Level,
    now: u64,
    l1_misses: u64,
    l2_misses: u64,
}

impl CacheModel {
    /// The levels have their sizes.
    pub closed spec fn wf(&self) -> bool {
        &&& self.l1.wf()
        &&& self.l2.wf()
        &&& self.l1.size() == (64int, 8int)
        &&& self.l2.size() == (1024int, 16int)
        &&& self.l1_misses <= self.now
        &&& self.l2_misses <= self.l1_misses
    }

    /// Its state.
    pub closed spec fn state(&self) -> CacheState {
        CacheState {
            l1: self.l1.lines(),
            l2: self.l2.lines(),
            now: self.now as int,
            l1_misses: self.l1_misses as int,
            l2_misses: self.l2_misses as int,
        }
    }

    /// An empty cache.
    pub open spec fn empty() -> CacheState {
        CacheState {
            l1: Lines { tags: Seq::new(512, |i: int| u64::MAX), stamps: Seq::new(512, |i: int| 0u64) },
            l2: Lines { tags: Seq::new(16384, |i: int| u64::MAX), stamps: Seq::new(16384, |i: int| 0u64) },
            now: 0,
            l1_misses: 0,
            l2_misses: 0,
        }
    }

    /// An empty cache.
    pub fn new() -> (r: Self)
        ensures
            r.wf(),
            r.state() == Self::empty(),
    {
        let r = CacheModel { l1: Level::new(64, 8), l2: Level::new(1024, 16), now: 0, l1_misses: 0, l2_misses: 0 };
        assert(r.state().l1.tags =~= Self::empty().l1.tags);
        assert(r.state().l1.stamps =~= Self::empty().l1.stamps);
        assert(r.state().l2.tags =~= Self::empty().l2.tags);
        assert(r.state().l2.stamps =~= Self::empty().l2.stamps);
        r
    }

    /// The misses of the first level.
    pub fn l1_misses(&self) -> (r: u64)
        ensures
            r == self.state().l1_misses,
    {
        self.l1_misses
    }

    /// The misses of both levels.
    pub fn l2_misses(&self) -> (r: u64)
        ensures
            r == self.state().l2_misses,
    {
        self.l2_misses
    }

    /// Uses the `bytes` bytes from `va` on, line by line. The clock has room for
    /// them.
    pub fn touch(&mut self, va: u64, bytes: usize)
        requires
            old(self).wf(),
            0 < bytes,
            va + bytes <= u64::MAX,
            old(self).state().now + (va + bytes - 1) / 64 - va / 64 < u64::MAX,
        ensures
            final(self).wf(),
            final(self).state() == old(self).state().bytes_used(va as int, bytes as int),
    {
        let last: u64 = (va + (bytes as u64 - 1)) / 64;
        let mut line: u64 = va / 64;
        let ghost first = line as int;
        let ghost start = self.state();
        while line <= last
            invariant
                self.wf(),
                start == old(self).state(),
                first <= line <= last + 1,
                last <= 0x400_0000_0000_0000,
                self.state() == start.lines_used(first, (line - first) as nat),
                self.now == start.now + (line - first),
                start.now + last - first < u64::MAX,
            decreases last + 1 - line,
        {
            let ghost before = self.state();
            self.now = self.now + 1;
            if !self.l1.access(line, self.now) {
                self.l1_misses = self.l1_misses + 1;
                if !self.l2.access(line, self.now) {
                    self.l2_misses = self.l2_misses + 1;
                }
            }
            assert(self.state() == before.line_used(line));
            line += 1;
        }
    }
}

/// A line that was used is there.
pub proof fn used_line_is_held(l: Lines, sets: int, ways: int, line: u64, now: u64)
    requires
        0 < sets,
        0 < ways,
        l.tags.len() == sets * ways,
        l.stamps.len() == sets * ways,
    ensures
        l.used(sets, ways, line, now).holds(sets, ways, line),
{
    let k = line as int % sets;
    let b = k * ways;
    assert(0 <= b && b + ways <= sets * ways) by (nonlinear_arith)
        requires
            0 <= k < sets,
            0 < ways,
            b == k * ways,
    ;
    let set = l.set_of(sets, ways, line);
    let after = l.used(sets, ways, line, now).set_of(sets, ways, line);
    if !l.holds(sets, ways, line) {
        let v = lemma_some_oldest(set.stamps, set.stamps.len() as int);
        assert(set.stamps.take(set.stamps.len() as int) =~= set.stamps);
        lemma_oldest(set.stamps, v);
        assert(after.tags[v] == line);
        lemma_way_found(after.tags, line, 0, v);
    }
}

/// Among some ways one is the oldest.
proof fn lemma_some_oldest(stamps: Seq<u64>, n: int) -> (v: int)
    requires
        0 < n <= stamps.len(),
    ensures
        is_oldest(stamps.take(n), v),
    decreases n,
{
    let t = stamps.take(n);
    if n == 1 {
        assert(is_oldest(t, 0));
        0
    } else {
        let v = lemma_some_oldest(stamps, n - 1);
        let u = stamps.take(n - 1);
        assert forall|k: int| 0 <= k < n - 1 implies #[trigger] t[k] == u[k] by {}
        let w = if stamps[n - 1] < stamps[v] {
            n - 1
        } else {
            v
        };
        assert forall|k: int| 0 <= k < n implies t[w] <= #[trigger] t[k] by {
            if k < n - 1 {
                assert(u[v] <= u[k]);
            }
        }
        assert forall|k: int| 0 <= k < w implies t[w] < #[trigger] t[k] by {
            if k < n - 1 {
                assert(u[v] <= u[k]);
                assert(k < v ==> u[v] < u[k]);
            }
        }
        w
    }
}

proof fn lemma_way_found(tags: Seq<u64>, line: u64, w: int, v: int)
    requires
        0 <= w <= v < tags.len(),
        tags[v] == line,
    ensures
        way_of(tags, line, w) <= v,
    decreases v - w,
{
    if tags[w] != line {
        lemma_way_found(tags, line, w + 1, v);
    }
}

// ---- the trace -----------------------------------------------------------------------------------

/// A buffer that is watched.
#[derive(Clone, Copy, Debug, PartialEq, Eq, Structural)]
pub struct Region {
    pub lo: u64,
    pub hi: u64,
    pub vbase: u64,
    pub bytes: u64,
    pub used: bool,
}

impl Region {
    /// The address lies in the buffer.
    pub open spec fn covers(self, a: u64) -> bool {
        self.used && self.lo <= a < self.hi
    }
}

/// How many buffers are watched at a time.
pub const MAX_REGIONS: usize = 256;

/// How many buffers are watched in all.
pub const MAX_BASES: u64 = 0x1000_0000;

/// The largest buffer, and the largest access.
pub const MAX_BYTES: u64 = 0xFFFF_FFFF;

/// The first region from `i` on that is free, or how many there are.
pub open spec fn free_slot(rs: Seq<Region>, i: int) -> int
    decreases rs.len() - i,
{
    if i >= rs.len() || !rs[i].used {
        i
    } else {
        free_slot(rs, i + 1)
    }
}

/// The first region from `i` on that begins at an address, or how many there
/// are.
pub open spec fn slot_at(rs: Seq<Region>, a: u64, i: int) -> int
    decreases rs.len() - i,
{
    if i >= rs.len() || rs[i].used && rs[i].lo == a {
        i
    } else {
        slot_at(rs, a, i + 1)
    }
}

/// The first region from `i` on that an address lies in, or how many there are.
pub open spec fn slot_over(rs: Seq<Region>, a: u64, i: int) -> int
    decreases rs.len() - i,
{
    if i >= rs.len() || rs[i].covers(a) {
        i
    } else {
        slot_over(rs, a, i + 1)
    }
}

/// One step of the hash of the accesses.
pub open spec fn mixed(h: u64, w: u64) -> u64 {
    (h ^ w).wrapping_mul(FNV_PRIME)
}

/// The accesses of a sort to its arrays.
pub struct Trace {
    pub active: bool,
    pub model: bool,
    pub reads: u64,
    pub writes: u64,
    pub compares: u64,
    pub table_reads: u64,
    pub table_writes: u64,
    pub table_bytes: u64,
    pub key_bytes: u64,
    pub flips: u64,
    pub hash: u64,
    pub unmapped: u64,
    pub have_last: bool,
    pub last_less: bool,
    pub regions: Vec<Region>,
    pub next_seq: u64,
    pub last: usize,
    pub cache: CacheModel,
    pub aux_current: u64,
    pub aux_peak: u64,
    pub aux_allocs: u64,
}

impl Trace {
    /// Every region has its base, and the cache is in order.
    pub open spec fn wf(&self) -> bool {
        &&& self.regions@.len() <= MAX_REGIONS
        &&& self.next_seq <= MAX_BASES
        &&& self.cache.wf()
        &&& forall|i: int| 0 <= i < self.regions@.len() ==> (#[trigger] self.regions@[i]).vbase <= self.next_seq * 0x1_0000_0000 && self.regions@[i].lo < self.regions@[i].hi <= self.regions@[i].lo + MAX_BYTES
    }

    /// The clock of the cache has room for an access.
    pub open spec fn has_room(&self, bytes: int) -> bool {
        self.cache.state().now + bytes / 64 + 2 <= u64::MAX
    }

    /// Where an address lies: in the region that was used last, or else in the
    /// first one over it.
    pub open spec fn slot(&self, a: u64) -> int {
        let rs = self.regions@;
        if self.last < rs.len() && rs[self.last as int].covers(a) {
            self.last as int
        } else {
            slot_over(rs, a, 0)
        }
    }

    /// The counters that are the same.
    pub open spec fn same_counts(&self, o: &Trace) -> bool {
        &&& self.active == o.active
        &&& self.model == o.model
        &&& self.reads == o.reads
        &&& self.writes == o.writes
        &&& self.compares == o.compares
        &&& self.table_reads == o.table_reads
        &&& self.table_writes == o.table_writes
        &&& self.table_bytes == o.table_bytes
        &&& self.key_bytes == o.key_bytes
        &&& self.flips == o.flips
        &&& self.have_last == o.have_last
        &&& self.last_less == o.last_less
        &&& self.aux_current == o.aux_current
        &&& self.aux_peak == o.aux_peak
        &&& self.aux_allocs == o.aux_allocs
    }

    /// What one access leaves behind, from `o` on: the hash of the place and the
    /// kind, and the lines of the cache; or one access more that lies in no
    /// region.
    pub open spec fn after_event(&self, o: &Trace, a: u64, bytes: int, op: u64) -> bool {
        let i = o.slot(a);
        &&& self.regions@ == o.regions@
        &&& self.next_seq == o.next_seq
        &&& if i < o.regions@.len() {
            let va = (o.regions@[i].vbase + (a - o.regions@[i].lo)) as u64;
            &&& self.hash == mixed(o.hash, (va << 3) | op)
            &&& self.cache.state() == o.cache.state().bytes_used(va as int, bytes)
            &&& self.unmapped == o.unmapped
            &&& self.last == i
        } else {
            &&& self.hash == o.hash
            &&& self.cache.state() == o.cache.state()
            &&& self.unmapped == o.unmapped.wrapping_add(1)
            &&& self.last == o.last
        }
    }

    /// What is left as it was where no model runs.
    pub open spec fn no_event(&self, o: &Trace) -> bool {
        &&& self.regions@ == o.regions@
        &&& self.next_seq == o.next_seq
        &&& self.hash == o.hash
        &&& self.cache.state() == o.cache.state()
        &&& self.unmapped == o.unmapped
        &&& self.last == o.last
    }

    /// Whether the clock of the cache has room for an access.
    pub fn fits(&self, bytes: u64) -> (r: bool)
        ensures
            r == self.has_room(bytes as int),
    {
        self.cache.now <= u64::MAX - (bytes / 64 + 2)
    }

    /// A trace that records nothing yet.
    pub fn new() -> (r: Self)
        ensures
            r.wf(),
            !r.active,
            !r.model,
            r.reads == 0 && r.writes == 0 && r.compares == 0 && r.table_reads == 0 && r.table_writes == 0,
            r.table_bytes == 0 && r.key_bytes == 0 && r.flips == 0 && r.unmapped == 0,
            r.hash == FNV_OFFSET,
            r.regions@.len() == 0,
            r.next_seq == 0,
            !r.have_last,
            r.cache.state() == CacheModel::empty(),
            r.aux_current == 0 && r.aux_peak == 0 && r.aux_allocs == 0,
    {
        Trace {
            active: false,
            model: false,
            reads: 0,
            writes: 0,
            compares: 0,
            table_reads: 0,
            table_writes: 0,
            table_bytes: 0,
            key_bytes: 0,
            flips: 0,
            hash: FNV_OFFSET,
            unmapped: 0,
            have_last: false,
            last_less: false,
            regions: Vec::new(),
            next_seq: 0,
            last: 0,
            cache: CacheModel::new(),
            aux_current: 0,
            aux_peak: 0,
            aux_allocs: 0,
        }
    }

    /// Starts recording. `array` is where the elements being sorted stand; every
    /// scratch allocation made from now on becomes a region as well. The cache is
    /// emptied where the model is to run.
    pub fn begin(&mut self, array: u64, bytes: u64, with_model: bool)
        requires
            old(self).wf(),
            bytes <= MAX_BYTES,
            array + MAX_BYTES <= u64::MAX,
        ensures
            final(self).wf(),
            final(self).active,
            final(self).model == with_model,
            final(self).reads == 0 && final(self).writes == 0 && final(self).compares == 0,
            final(self).table_reads == 0 && final(self).table_writes == 0 && final(self).table_bytes == 0,
            final(self).key_bytes == 0 && final(self).flips == 0 && final(self).unmapped == 0,
            final(self).hash == FNV_OFFSET,
            !final(self).have_last,
            final(self).next_seq == 1,
            final(self).last == 0,
            final(self).regions@.len() == 1,
            final(self).regions@[0] == region_of(array, bytes, 1),
            final(self).cache.state() == if with_model {
                CacheModel::empty()
            } else {
                old(self).cache.state()
            },
            final(self).aux_current == 0 && final(self).aux_peak == 0 && final(self).aux_allocs == 0,
    {
        self.reads = 0;
        self.writes = 0;
        self.compares = 0;
        self.table_reads = 0;
        self.table_writes = 0;
        self.table_bytes = 0;
        self.key_bytes = 0;
        self.flips = 0;
        self.unmapped = 0;
        self.hash = FNV_OFFSET;
        self.have_last = false;
        self.last_less = false;
        self.regions = Vec::new();
        self.next_seq = 0;
        self.last = 0;
        self.model = with_model;
        if with_model {
            self.cache = CacheModel::new();
        }
        self.aux_current = 0;
        self.aux_peak = 0;
        self.aux_allocs = 0;
        self.active = true;
        self.add_region(array, bytes);
    }

    /// Stops recording.
    pub fn end(&mut self)
        requires
            old(self).wf(),
        ensures
            final(self).wf(),
            !final(self).active,
            !final(self).model,
            final(self).no_event(old(self)),
            final(self).same_counts(&(Trace { active: false, model: false, ..*old(self) })),
    {
        self.active = false;
        self.model = false;
    }

    /// A buffer is watched from now on: in the first free place, where there is
    /// one, with the next base.
    pub fn add_region(&mut self, a: u64, bytes: u64)
        requires
            old(self).wf(),
            bytes <= MAX_BYTES,
            a + MAX_BYTES <= u64::MAX,
            old(self).next_seq < MAX_BASES,
        ensures
            final(self).wf(),
            final(self).same_counts(old(self)),
            final(self).hash == old(self).hash,
            final(self).cache.state() == old(self).cache.state(),
            final(self).unmapped == old(self).unmapped,
            final(self).last == old(self).last,
            final(self).regions@ == watched(old(self).regions@, a, bytes, old(self).next_seq as int),
            final(self).next_seq == old(self).next_seq + if free_slot(old(self).regions@, 0) == MAX_REGIONS {
                0int
            } else {
                1
            },
    {
        let ghost rs = self.regions@;
        let n: usize = self.regions.len();
        let mut i: usize = 0;
        while i < n && self.regions[i].used
            invariant
                i <= n == self.regions@.len(),
                self.regions@ == rs,
                free_slot(rs, 0) == free_slot(rs, i as int),
            decreases n - i,
        {
            i += 1;
        }
        if i == MAX_REGIONS {
            return;
        }
        self.next_seq = self.next_seq + 1;
        let hi: u64 = a + if bytes > 0 {
            bytes
        } else {
            1
        };
        let r = Region { lo: a, hi, vbase: self.next_seq * 0x1_0000_0000, bytes, used: true };
        if i == n {
            self.regions.push(r);
        } else {
            self.regions.set(i, r);
        }
        assert forall|k: int| 0 <= k < self.regions@.len() implies (#[trigger] self.regions@[k]).vbase <= self.next_seq * 0x1_0000_0000 && self.regions@[k].lo < self.regions@[k].hi
            <= self.regions@[k].lo + MAX_BYTES by {
            if k != i {
                assert(self.regions@[k] == rs[k]);
            }
        }
    }

    /// The buffer at an address is watched no longer. Returns its size, or zero
    /// where there is none.
    pub fn remove_region(&mut self, a: u64) -> (r: u64)
        requires
            old(self).wf(),
        ensures
            final(self).wf(),
            final(self).same_counts(old(self)),
            final(self).hash == old(self).hash,
            final(self).cache.state() == old(self).cache.state(),
            final(self).unmapped == old(self).unmapped,
            final(self).last == old(self).last,
            final(self).next_seq == old(self).next_seq,
            final(self).regions@ == unwatched(old(self).regions@, a),
            r == if slot_at(old(self).regions@, a, 0) < old(self).regions@.len() {
                old(self).regions@[slot_at(old(self).regions@, a, 0)].bytes
            } else {
                0
            },
    {
        let ghost rs = self.regions@;
        let n: usize = self.regions.len();
        let mut i: usize = 0;
        while i < n
            invariant
                i <= n == self.regions@.len(),
                *self == *old(self),
                self.wf(),
                rs == self.regions@,
                slot_at(rs, a, 0) == slot_at(rs, a, i as int),
            decreases n - i,
        {
            let q: Region = self.regions[i];
            if q.used && q.lo == a {
                self.regions.set(i, Region { used: false, ..q });
                assert forall|k: int| 0 <= k < self.regions@.len() implies (#[trigger] self.regions@[k]).vbase <= self.next_seq * 0x1_0000_0000 && self.regions@[k].lo
                    < self.regions@[k].hi <= self.regions@[k].lo + MAX_BYTES by {
                    assert(rs[k].lo == self.regions@[k].lo && rs[k].hi == self.regions@[k].hi && rs[k].vbase == self.regions@[k].vbase);
                }
                return q.bytes;
            }
            i += 1;
        }
        0
    }

    /// Where an address lies.
    fn locate(&mut self, a: u64) -> (r: Option<u64>)
        requires
            old(self).wf(),
        ensures
            final(self).wf(),
            final(self).same_counts(old(self)),
            final(self).regions@ == old(self).regions@,
            final(self).next_seq == old(self).next_seq,
            final(self).hash == old(self).hash,
            final(self).cache == old(self).cache,
            final(self).unmapped == old(self).unmapped,
            r matches Some(va) ==> va <= 0x1000_0000_FFFF_FFFF,
            ({
                let rs = old(self).regions@;
                let i = old(self).slot(a);
                if i < rs.len() {
                    r == Some((rs[i].vbase + (a - rs[i].lo)) as u64) && final(self).last == i
                } else {
                    r is None && final(self).last == old(self).last
                }
            }),
    {
        let n: usize = self.regions.len();
        if self.last < n {
            let q: Region = self.regions[self.last];
            assert(self.regions@[self.last as int].vbase <= self.next_seq * 0x1_0000_0000);
            if q.used && a >= q.lo && a < q.hi {
                return Some(q.vbase + (a - q.lo));
            }
        }
        let mut i: usize = 0;
        while i < n
            invariant
                i <= n == self.regions@.len(),
                *self == *old(self),
                self.wf(),
                !(self.last < n && self.regions@[self.last as int].covers(a)),
                slot_over(self.regions@, a, 0) == slot_over(self.regions@, a, i as int),
            decreases n - i,
        {
            let q: Region = self.regions[i];
            assert(self.regions@[i as int].vbase <= self.next_seq * 0x1_0000_0000);
            if q.used && a >= q.lo && a < q.hi {
                self.last = i;
                return Some(q.vbase + (a - q.lo));
            }
            i += 1;
        }
        None
    }

    /// An access of `bytes` bytes at `a`.
    fn event(&mut self, a: u64, bytes: u64, op: u64)
        requires
            old(self).wf(),
            0 < bytes <= MAX_BYTES,
            old(self).has_room(bytes as int),
        ensures
            final(self).wf(),
            final(self).same_counts(old(self)),
            final(self).after_event(old(self), a, bytes as int, op),
    {
        match self.locate(a) {
            None => {
                self.unmapped = self.unmapped.wrapping_add(1);
            },
            Some(va) => {
                self.hash = (self.hash ^ ((va << 3) | op)).wrapping_mul(FNV_PRIME);
                self.cache.touch(va, bytes as usize);
            },
        }
    }

    /// An element was read.
    pub fn on_read(&mut self, a: u64, bytes: u64)
        requires
            old(self).wf(),
            0 < bytes <= MAX_BYTES,
            old(self).has_room(bytes as int),
        ensures
            final(self).wf(),
            final(self).same_counts(&(Trace { reads: old(self).reads.wrapping_add(1), ..*old(self) })),
            old(self).model ==> final(self).after_event(old(self), a, bytes as int, 1),
            !old(self).model ==> final(self).no_event(old(self)),
    {
        self.reads = self.reads.wrapping_add(1);
        if self.model {
            self.event(a, bytes, 1);
        }
    }

    /// An element was written.
    pub fn on_write(&mut self, a: u64, bytes: u64)
        requires
            old(self).wf(),
            0 < bytes <= MAX_BYTES,
            old(self).has_room(bytes as int),
        ensures
            final(self).wf(),
            final(self).same_counts(&(Trace { writes: old(self).writes.wrapping_add(1), ..*old(self) })),
            old(self).model ==> final(self).after_event(old(self), a, bytes as int, 2),
            !old(self).model ==> final(self).no_event(old(self)),
    {
        self.writes = self.writes.wrapping_add(1);
        if self.model {
            self.event(a, bytes, 2);
        }
    }

    /// An entry of a table was read.
    pub fn on_table_read(&mut self, a: u64, bytes: u64)
        requires
            old(self).wf(),
            0 < bytes <= MAX_BYTES,
            old(self).has_room(bytes as int),
        ensures
            final(self).wf(),
            final(self).same_counts(
                &(Trace { table_reads: old(self).table_reads.wrapping_add(1), table_bytes: old(self).table_bytes.wrapping_add(bytes), ..*old(self) }),
            ),
            old(self).model ==> final(self).after_event(old(self), a, bytes as int, 3),
            !old(self).model ==> final(self).no_event(old(self)),
    {
        self.table_reads = self.table_reads.wrapping_add(1);
        self.table_bytes = self.table_bytes.wrapping_add(bytes);
        if self.model {
            self.event(a, bytes, 3);
        }
    }

    /// An entry of a table was written.
    pub fn on_table_write(&mut self, a: u64, bytes: u64)
        requires
            old(self).wf(),
            0 < bytes <= MAX_BYTES,
            old(self).has_room(bytes as int),
        ensures
            final(self).wf(),
            final(self).same_counts(
                &(Trace { table_writes: old(self).table_writes.wrapping_add(1), table_bytes: old(self).table_bytes.wrapping_add(bytes), ..*old(self) }),
            ),
            old(self).model ==> final(self).after_event(old(self), a, bytes as int, 4),
            !old(self).model ==> final(self).no_event(old(self)),
    {
        self.table_writes = self.table_writes.wrapping_add(1);
        self.table_bytes = self.table_bytes.wrapping_add(bytes);
        if self.model {
            self.event(a, bytes, 4);
        }
    }

    /// A table of `entries` entries was swept.
    pub fn on_table_sweep(&mut self, a: u64, entries: u64, entry_bytes: u64, read: bool, write: bool)
        requires
            old(self).wf(),
            0 < entry_bytes,
            entries * entry_bytes <= MAX_BYTES,
            old(self).has_room(entries * entry_bytes),
        ensures
            final(self).wf(),
            final(self).same_counts(
                &(Trace {
                    table_reads: if read {
                        old(self).table_reads.wrapping_add(entries)
                    } else {
                        old(self).table_reads
                    },
                    table_writes: if write {
                        old(self).table_writes.wrapping_add(entries)
                    } else {
                        old(self).table_writes
                    },
                    table_bytes: swept_bytes(old(self).table_bytes, (entries * entry_bytes) as u64, read, write),
                    ..*old(self)
                }),
            ),
            old(self).model && entries > 0 ==> final(self).after_event(
                old(self),
                a,
                entries * entry_bytes,
                if read && write {
                    6
                } else if read {
                    3
                } else {
                    4
                },
            ),
            !(old(self).model && entries > 0) ==> final(self).no_event(old(self)),
    {
        let all: u64 = entries * entry_bytes;
        if read {
            self.table_reads = self.table_reads.wrapping_add(entries);
            self.table_bytes = self.table_bytes.wrapping_add(all);
        }
        if write {
            self.table_writes = self.table_writes.wrapping_add(entries);
            self.table_bytes = self.table_bytes.wrapping_add(all);
        }
        if self.model && entries > 0 {
            assert(all > 0) by (nonlinear_arith)
                requires
                    all == entries * entry_bytes,
                    entries > 0,
                    entry_bytes > 0,
            ;
            let op: u64 = if read && write {
                6
            } else if read {
                3
            } else {
                4
            };
            self.event(a, all, op);
        }
    }

    /// Bytes of a key were read.
    pub fn on_key(&mut self, a: u64, bytes: u64)
        requires
            old(self).wf(),
            bytes <= MAX_BYTES,
            old(self).has_room(bytes as int),
        ensures
            final(self).wf(),
            final(self).same_counts(&(Trace { key_bytes: old(self).key_bytes.wrapping_add(bytes), ..*old(self) })),
            old(self).model && bytes > 0 ==> final(self).after_event(old(self), a, bytes as int, 5),
            !(old(self).model && bytes > 0) ==> final(self).no_event(old(self)),
    {
        if bytes == 0 {
            return;
        }
        self.key_bytes = self.key_bytes.wrapping_add(bytes);
        if self.model {
            self.event(a, bytes, 5);
        }
    }

    /// Two elements were compared. A flip is an outcome different from the one
    /// before.
    pub fn on_compare(&mut self, less: bool)
        requires
            old(self).wf(),
        ensures
            final(self).wf(),
            final(self).same_counts(
                &(Trace {
                    compares: old(self).compares.wrapping_add(1),
                    flips: if old(self).have_last && less != old(self).last_less {
                        old(self).flips.wrapping_add(1)
                    } else {
                        old(self).flips
                    },
                    have_last: true,
                    last_less: less,
                    ..*old(self)
                }),
            ),
            final(self).hash == if old(self).model {
                mixed(
                    old(self).hash,
                    if less {
                        0x101
                    } else {
                        0x100
                    },
                )
            } else {
                old(self).hash
            },
            final(self).cache.state() == old(self).cache.state(),
            final(self).regions@ == old(self).regions@,
            final(self).next_seq == old(self).next_seq,
            final(self).unmapped == old(self).unmapped,
            final(self).last == old(self).last,
    {
        self.compares = self.compares.wrapping_add(1);
        if self.have_last && less != self.last_less {
            self.flips = self.flips.wrapping_add(1);
        }
        self.have_last = true;
        self.last_less = less;
        if self.model {
            let w: u64 = if less {
                0x101
            } else {
                0x100
            };
            self.hash = (self.hash ^ w).wrapping_mul(FNV_PRIME);
        }
    }

    /// Scratch memory was allocated.
    pub fn on_alloc(&mut self, a: u64, bytes: u64)
        requires
            old(self).wf(),
            bytes <= MAX_BYTES,
            a + MAX_BYTES <= u64::MAX,
            old(self).aux_current + bytes <= u64::MAX,
            old(self).next_seq < MAX_BASES,
        ensures
            final(self).wf(),
            final(self).same_counts(
                &(Trace {
                    aux_current: (old(self).aux_current + bytes) as u64,
                    aux_peak: if old(self).aux_current + bytes > old(self).aux_peak {
                        (old(self).aux_current + bytes) as u64
                    } else {
                        old(self).aux_peak
                    },
                    aux_allocs: old(self).aux_allocs.wrapping_add(1),
                    ..*old(self)
                }),
            ),
            final(self).hash == old(self).hash,
            final(self).cache.state() == old(self).cache.state(),
            final(self).regions@ == if old(self).active {
                watched(old(self).regions@, a, bytes, old(self).next_seq as int)
            } else {
                old(self).regions@
            },
    {
        self.aux_current = self.aux_current + bytes;
        if self.aux_current > self.aux_peak {
            self.aux_peak = self.aux_current;
        }
        self.aux_allocs = self.aux_allocs.wrapping_add(1);
        if self.active {
            self.add_region(a, bytes);
        }
    }

    /// Scratch memory was freed.
    pub fn on_free(&mut self, a: u64, bytes: u64)
        requires
            old(self).wf(),
            bytes <= old(self).aux_current,
        ensures
            final(self).wf(),
            final(self).same_counts(&(Trace { aux_current: (old(self).aux_current - bytes) as u64, ..*old(self) })),
            final(self).hash == old(self).hash,
            final(self).cache.state() == old(self).cache.state(),
            final(self).regions@ == if old(self).active {
                unwatched(old(self).regions@, a)
            } else {
                old(self).regions@
            },
    {
        self.aux_current = self.aux_current - bytes;
        if self.active {
            self.remove_region(a);
        }
    }
}

/// The region of a buffer that is registered as number `seq`.
pub open spec fn region_of(a: u64, bytes: u64, seq: int) -> Region {
    Region {
        lo: a,
        hi: (a + if bytes > 0 {
            bytes as int
        } else {
            1
        }) as u64,
        vbase: (seq * 0x1_0000_0000) as u64,
        bytes,
        used: true,
    }
}

/// The regions with one more, which takes the first free place and the base
/// after `seq`; as they were where there is no place.
pub open spec fn watched(rs: Seq<Region>, a: u64, bytes: u64, seq: int) -> Seq<Region> {
    let i = free_slot(rs, 0);
    if i == MAX_REGIONS {
        rs
    } else if i == rs.len() {
        rs.push(region_of(a, bytes, seq + 1))
    } else {
        rs.update(i, region_of(a, bytes, seq + 1))
    }
}

/// The regions without the first one at an address.
pub open spec fn unwatched(rs: Seq<Region>, a: u64) -> Seq<Region> {
    let i = slot_at(rs, a, 0);
    if i < rs.len() {
        rs.update(i, Region { used: false, ..rs[i] })
    } else {
        rs
    }
}

/// The bytes of a swept table: once for reading, once for writing.
pub open spec fn swept_bytes(before: u64, all: u64, read: bool, write: bool) -> u64 {
    let a = if read {
        before.wrapping_add(all)
    } else {
        before
    };
    if write {
        a.wrapping_add(all)
    } else {
        a
    }
}

// ---- the places of a run -------------------------------------------------------------------------

/// The trace of a run with the cache model on. It is in order at all times; an
/// access that it has no room for is left out.
pub struct Places {
    trace: Option<Trace>,
}

impl Places {
    #[verifier::type_invariant]
    spec fn in_order(self) -> bool {
        match self.trace {
            Some(t) => t.wf() && t.model && t.active,
            None => true,
        }
    }

    /// There is a trace.
    pub closed spec fn running(&self) -> bool {
        self.trace is Some
    }

    /// The trace.
    pub closed spec fn now(&self) -> Trace {
        self.trace.unwrap()
    }

    /// How many buffers are or were watched.
    pub open spec fn buffers(&self) -> int {
        if self.running() {
            self.now().next_seq as int
        } else {
            0
        }
    }

    /// There is room for an access of so many bytes.
    pub open spec fn admits(&self, bytes: int) -> bool {
        0 < bytes <= MAX_BYTES && self.now().has_room(bytes)
    }

    /// An access of `bytes` bytes at `a` was recorded from `o` on; nothing
    /// changed where there was no room for it.
    pub open spec fn took(&self, o: &Places, a: u64, bytes: int, op: u64) -> bool {
        &&& self.running() == o.running()
        &&& o.running() && o.admits(bytes) ==> self.now().after_event(&o.now(), a, bytes, op)
        &&& o.running() && !o.admits(bytes) ==> self.now() == o.now()
    }

    /// Watches the array of `bytes` bytes at `array`, with an empty cache.
    pub fn new(array: u64, bytes: u64) -> (r: Self)
        ensures
            r.running(),
            r.now().hash == FNV_OFFSET,
            r.now().unmapped == 0,
            r.now().cache.state() == CacheModel::empty(),
            r.now().next_seq == 1,
            r.now().regions@ == if bytes <= MAX_BYTES && array + MAX_BYTES <= u64::MAX {
                seq![region_of(array, bytes, 1)]
            } else {
                seq![region_of(0, 0, 1)]
            },
    {
        let mut t: Trace = Trace::new();
        if bytes <= MAX_BYTES && array <= u64::MAX - MAX_BYTES {
            t.begin(array, bytes, true);
            assert(t.regions@ =~= seq![region_of(array, bytes, 1)]);
        } else {
            t.begin(0, 0, true);
            assert(t.regions@ =~= seq![region_of(0, 0, 1)]);
        }
        Places { trace: Some(t) }
    }

    /// An element was read or written.
    pub fn element(&mut self, a: u64, bytes: u64, write: bool)
        ensures
            final(self).took(
                old(self),
                a,
                bytes as int,
                if write {
                    2
                } else {
                    1
                },
            ),
    {
        proof {
            use_type_invariant(&*self);
        }
        let mut held: Option<Trace> = None;
        core::mem::swap(&mut held, &mut self.trace);
        if let Some(t) = held {
            let mut t: Trace = t;
            if 0 < bytes && bytes <= MAX_BYTES && t.fits(bytes) {
                if write {
                    t.on_write(a, bytes);
                } else {
                    t.on_read(a, bytes);
                }
            }
            self.trace = Some(t);
        }
    }

    /// An entry of a table was read or written.
    pub fn entry(&mut self, a: u64, bytes: u64, write: bool)
        ensures
            final(self).took(
                old(self),
                a,
                bytes as int,
                if write {
                    4
                } else {
                    3
                },
            ),
    {
        proof {
            use_type_invariant(&*self);
        }
        let mut held: Option<Trace> = None;
        core::mem::swap(&mut held, &mut self.trace);
        if let Some(t) = held {
            let mut t: Trace = t;
            if 0 < bytes && bytes <= MAX_BYTES && t.fits(bytes) {
                if write {
                    t.on_table_write(a, bytes);
                } else {
                    t.on_table_read(a, bytes);
                }
            }
            self.trace = Some(t);
        }
    }

    /// A table of `entries` entries was swept.
    pub fn sweep(&mut self, a: u64, entries: u64, entry_bytes: u64, read: bool, write: bool)
        ensures
            final(self).took(
                old(self),
                a,
                entries * entry_bytes,
                if read && write {
                    6
                } else if read {
                    3
                } else {
                    4
                },
            ),
    {
        proof {
            use_type_invariant(&*self);
        }
        let mut held: Option<Trace> = None;
        core::mem::swap(&mut held, &mut self.trace);
        if let Some(t) = held {
            let mut t: Trace = t;
            if let Some(all) = entries.checked_mul(entry_bytes) {
                if 0 < all && all <= MAX_BYTES && t.fits(all) {
                    t.on_table_sweep(a, entries, entry_bytes, read, write);
                }
            }
            self.trace = Some(t);
        }
    }

    /// Bytes of a key were read.
    pub fn key(&mut self, a: u64, bytes: u64)
        ensures
            final(self).took(old(self), a, bytes as int, 5),
    {
        proof {
            use_type_invariant(&*self);
        }
        let mut held: Option<Trace> = None;
        core::mem::swap(&mut held, &mut self.trace);
        if let Some(t) = held {
            let mut t: Trace = t;
            if 0 < bytes && bytes <= MAX_BYTES && t.fits(bytes) {
                t.on_key(a, bytes);
            }
            self.trace = Some(t);
        }
    }

    /// Two elements were compared.
    pub fn compare(&mut self, less: bool)
        ensures
            final(self).running() == old(self).running(),
            old(self).running() ==> {
                &&& final(self).now().hash == mixed(
                    old(self).now().hash,
                    if less {
                        0x101
                    } else {
                        0x100
                    },
                )
                &&& final(self).now().cache.state() == old(self).now().cache.state()
                &&& final(self).now().regions@ == old(self).now().regions@
                &&& final(self).now().next_seq == old(self).now().next_seq
                &&& final(self).now().unmapped == old(self).now().unmapped
            },
    {
        proof {
            use_type_invariant(&*self);
        }
        let mut held: Option<Trace> = None;
        core::mem::swap(&mut held, &mut self.trace);
        if let Some(t) = held {
            let mut t: Trace = t;
            t.on_compare(less);
            self.trace = Some(t);
        }
    }

    /// A buffer is watched from now on, where it can be.
    pub fn watch(&mut self, a: u64, bytes: u64)
        ensures
            final(self).running() == old(self).running(),
            old(self).running() ==> {
                &&& final(self).now().hash == old(self).now().hash
                &&& final(self).now().cache.state() == old(self).now().cache.state()
                &&& final(self).now().unmapped == old(self).now().unmapped
                &&& final(self).now().next_seq == old(self).now().next_seq + if bytes <= MAX_BYTES && a + MAX_BYTES <= u64::MAX && old(self).now().next_seq < MAX_BASES && free_slot(
                    old(self).now().regions@,
                    0,
                ) != MAX_REGIONS {
                    1int
                } else {
                    0
                }
                &&& final(self).now().regions@ == if bytes <= MAX_BYTES && a + MAX_BYTES <= u64::MAX && old(self).now().next_seq < MAX_BASES {
                    watched(old(self).now().regions@, a, bytes, old(self).now().next_seq as int)
                } else {
                    old(self).now().regions@
                }
            },
    {
        proof {
            use_type_invariant(&*self);
        }
        let mut held: Option<Trace> = None;
        core::mem::swap(&mut held, &mut self.trace);
        if let Some(t) = held {
            let mut t: Trace = t;
            if bytes <= MAX_BYTES && a <= u64::MAX - MAX_BYTES && t.next_seq < MAX_BASES {
                t.add_region(a, bytes);
            }
            self.trace = Some(t);
        }
    }

    /// The buffer at an address is watched no longer.
    pub fn unwatch(&mut self, a: u64)
        ensures
            final(self).running() == old(self).running(),
            old(self).running() ==> {
                &&& final(self).now().hash == old(self).now().hash
                &&& final(self).now().cache.state() == old(self).now().cache.state()
                &&& final(self).now().unmapped == old(self).now().unmapped
                &&& final(self).now().next_seq == old(self).now().next_seq
                &&& final(self).now().regions@ == unwatched(old(self).now().regions@, a)
            },
    {
        proof {
            use_type_invariant(&*self);
        }
        let mut held: Option<Trace> = None;
        core::mem::swap(&mut held, &mut self.trace);
        if let Some(t) = held {
            let mut t: Trace = t;
            let gone: u64 = t.remove_region(a);
            self.trace = Some(t);
        }
    }

    /// How many buffers are or were watched.
    pub fn watched_so_far(&self) -> (r: u64)
        ensures
            r == self.buffers(),
    {
        match &self.trace {
            Some(t) => t.next_seq,
            None => 0,
        }
    }

    /// What the trace shows in the end.
    pub fn seen(&self) -> (r: Seen)
        ensures
            self.running() ==> {
                &&& r.l1_misses == self.now().cache.state().l1_misses
                &&& r.l2_misses == self.now().cache.state().l2_misses
                &&& r.unmapped == self.now().unmapped
                &&& r.hash == self.now().hash
            },
            r.l2_misses <= r.l1_misses,
    {
        proof {
            use_type_invariant(self);
        }
        match &self.trace {
            Some(t) => Seen { l1_misses: t.cache.l1_misses(), l2_misses: t.cache.l2_misses(), unmapped: t.unmapped, hash: t.hash },
            None => Seen { l1_misses: 0, l2_misses: 0, unmapped: 0, hash: FNV_OFFSET },
        }
    }
}

/// What a trace shows of the places of a run.
#[derive(Clone, Copy, Debug, PartialEq, Eq, Structural)]
pub struct Seen {
    /// Misses of the first level of the cache.
    pub l1_misses: u64,
    /// Misses of both levels.
    pub l2_misses: u64,
    /// Accesses to a place in no buffer.
    pub unmapped: u64,
    /// The hash of the places and kinds of the accesses and of the outcomes of
    /// the comparisons, in turn.
    pub hash: u64,
}

} // verus!
