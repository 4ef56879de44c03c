//! What the watch over a sort promises: the counters, the buffers and the cache.
use crate::bench::trace::{
    free_slot, is_oldest, mixed, oldest, region_of, slot_at, slot_over, swept_bytes, unwatched,
    watched, way_of, CacheModel, CacheState, Lines, Region, Trace,
};
use crate::bench::watch::{total, AlgoStats, Counters, Tally, TraceHooks, Traffic};
use crate::view::{Hooks, Note, Stat};
use vstd::prelude::*;

verus! {

// ---- counters ------------------------------------------------------------------------------------

/// A comparison counts once; it is a flip where it came out otherwise than the one
/// before, and reads no key.
pub proof fn comparisons_are_counted(c: Counters, a: bool, b: bool)
    requires
        c.compares < 0xFFFF_FFFF_FFFF_FFFE,
        c.flips < 0xFFFF_FFFF_FFFF_FFFE,
    ensures
        c.compared(a).compares == c.compares + 1,
        c.compared(a).compared(b).flips == c.compared(a).flips + if a != b {
            1int
        } else {
            0
        },
        c.last is None ==> c.compared(a).flips == c.flips,
        c.compared(a).key_reads == c.key_reads,
        Counters::none().compared(a).compares == 1,
        Counters::none().compared(a).flips == 0,
        Counters::none().key_reads == 0,
{
}

/// What is counted counts by as many, and nothing else does.
pub proof fn decisions_are_counted(s: AlgoStats, n: u64)
    requires
        n <= 0xFFFF_FFFF,
        s.giveups <= 0xFFFF_FFFF,
        s.splits <= 0xFFFF_FFFF,
        s.split_retries <= 0xFFFF_FFFF,
        s.part_sorts <= 0xFFFF_FFFF,
        s.dict_tries <= 0xFFFF_FFFF,
        s.dict_hits <= 0xFFFF_FFFF,
        s.plan_retries <= 0xFFFF_FFFF,
        s.radix_passes <= 0xFFFF_FFFF,
        s.passes_skipped <= 0xFFFF_FFFF,
    ensures
        s.counted(Stat::Giveups, n) == (AlgoStats { giveups: (s.giveups + n) as u64, ..s }),
        s.counted(Stat::Splits, n) == (AlgoStats { splits: (s.splits + n) as u64, ..s }),
        s.counted(Stat::SplitRetries, n) == (AlgoStats { split_retries: (s.split_retries + n) as u64, ..s }),
        s.counted(Stat::PartSorts, n) == (AlgoStats { part_sorts: (s.part_sorts + n) as u64, ..s }),
        s.counted(Stat::DictTries, n) == (AlgoStats { dict_tries: (s.dict_tries + n) as u64, ..s }),
        s.counted(Stat::DictHits, n) == (AlgoStats { dict_hits: (s.dict_hits + n) as u64, ..s }),
        s.counted(Stat::PlanRetries, n) == (AlgoStats { plan_retries: (s.plan_retries + n) as u64, ..s }),
        s.counted(Stat::RadixPasses, n) == (AlgoStats { radix_passes: (s.radix_passes + n) as u64, ..s }),
        s.counted(Stat::PassesSkipped, n) == (AlgoStats { passes_skipped: (s.passes_skipped + n) as u64, ..s }),
{
}

/// The routes are counted apart, each range once, and the first one is remembered.
pub proof fn routes_are_counted(s: AlgoStats, r: u8, q: u8)
    requires
        1 <= r <= 5,
        1 <= q <= 5,
        s.sorted + s.reverse + s.runs + s.displaced + s.radix <= 0xFFFF_FFFF,
    ensures
        ({
            let t = s.routed(r);
            t.sorted + t.reverse + t.runs + t.displaced + t.radix == s.sorted + s.reverse + s.runs + s.displaced + s.radix + 1
        }),
        s.routed(1).sorted == s.sorted + 1,
        s.routed(2).reverse == s.reverse + 1,
        s.routed(3).runs == s.runs + 1,
        s.routed(4).displaced == s.displaced + 1,
        s.routed(5).radix == s.radix + 1,
        s.first_route == 0 ==> s.routed(r).first_route == r,
        s.routed(r).routed(q).first_route == s.routed(r).first_route,
{
}

/// The depth rises by one at every step down, and the deepest one stays on record.
pub proof fn depths_are_counted(s: AlgoStats)
    requires
        s.depth < 0xFFFF_FFFE,
        s.depth <= s.max_depth,
    ensures
        s.deeper().depth == s.depth + 1,
        s.deeper().max_depth >= s.deeper().depth,
        s.deeper().max_depth >= s.max_depth,
        s.deeper().max_depth <= s.max_depth + 1,
        s.depth < s.max_depth ==> s.deeper().max_depth == s.max_depth,
{
}

/// The bytes that moved: those of the elements read and written, those of the table
/// entries and those of the keys.
pub proof fn traffic_adds_up(t: Traffic, size: u64)
    ensures
        t.moved(size) as int == ((t.reads + t.writes) * size + t.table_bytes + t.key_bytes) % 0x1_0000_0000_0000_0000,
{
    let m = 0x1_0000_0000_0000_0000int;
    let a = t.reads.wrapping_add(t.writes) as int;
    let b = t.reads.wrapping_add(t.writes).wrapping_mul(size) as int;
    let s = (t.reads + t.writes) as int;
    vstd::arithmetic::div_mod::lemma_mul_mod_noop_left(s, size as int, m);
    vstd::arithmetic::div_mod::lemma_small_mod(t.table_bytes as nat, m as nat);
    vstd::arithmetic::div_mod::lemma_add_mod_noop(s * size, t.table_bytes as int, m);
    vstd::arithmetic::div_mod::lemma_add_mod_noop(s * size + t.table_bytes, t.key_bytes as int, m);
    assert(a == s % m);
    assert(b == (a * size) % m);
}

/// What a note adds to the record: a read, a write, the entries of a table and their
/// bytes, the bytes of a key, and nothing to the rest.
pub proof fn notes_are_recorded(t: Tally, reads: usize, writes: usize, bytes: usize, k: u64)
    requires
        t.traffic.reads < u64::MAX,
        t.traffic.writes < u64::MAX,
        t.traffic.table_reads + reads <= u64::MAX,
        t.traffic.table_writes + writes <= u64::MAX,
        reads + writes <= u64::MAX,
        bytes <= u64::MAX,
        t.traffic.table_bytes + (reads + writes) * bytes <= u64::MAX,
        t.traffic.key_bytes + k <= u64::MAX,
        t.stats.depth > 0,
    ensures
        TraceHooks::after(t, Note::Read) == (Tally { traffic: Traffic { reads: (t.traffic.reads + 1) as u64, ..t.traffic }, ..t }),
        TraceHooks::after(t, Note::Write) == (Tally { traffic: Traffic { writes: (t.traffic.writes + 1) as u64, ..t.traffic }, ..t }),
        TraceHooks::after(t, Note::Key(k)) == (Tally { traffic: Traffic { key_bytes: (t.traffic.key_bytes + k) as u64, ..t.traffic }, ..t }),
        TraceHooks::after(t, Note::Table { reads, writes, bytes }).traffic.table_reads == t.traffic.table_reads + reads,
        TraceHooks::after(t, Note::Table { reads, writes, bytes }).traffic.table_writes == t.traffic.table_writes + writes,
        TraceHooks::after(t, Note::Table { reads, writes, bytes }).traffic.table_bytes == t.traffic.table_bytes + (reads + writes) * bytes,
        TraceHooks::after(t, Note::Table { reads, writes, bytes }).traffic.reads == t.traffic.reads,
        TraceHooks::after(t, Note::Table { reads, writes, bytes }).traffic.writes == t.traffic.writes,
        TraceHooks::after(t, Note::Table { reads, writes, bytes }).counters == t.counters,
        TraceHooks::after(t, Note::Table { reads, writes, bytes }).stats == t.stats,
        TraceHooks::after(t, Note::Leave).stats.depth == t.stats.depth - 1,
        TraceHooks::after(t, Note::Leave).stats.max_depth == t.stats.max_depth,
{
    assert((reads + writes) * bytes >= 0) by (nonlinear_arith);
    assert((reads as u64).wrapping_add(writes as u64) == reads + writes);
    assert((reads as u64).wrapping_add(writes as u64).wrapping_mul(bytes as u64) == (reads + writes) * bytes);
}

/// Going down and coming back leaves the depth as it was.
pub proof fn leaving_undoes_entering(t: Tally)
    requires
        t.stats.depth < u32::MAX,
    ensures
        TraceHooks::after(TraceHooks::after(t, Note::Enter), Note::Leave).stats.depth == t.stats.depth,
{
}

/// The bytes of arrays add up.
pub proof fn totals_add_up(a: Seq<nat>, b: Seq<nat>, x: nat)
    ensures
        total(Seq::empty()) == 0,
        total(seq![x]) == x,
        total(a + b) == total(a) + total(b),
    decreases b.len(),
{
    reveal_with_fuel(total, 2);
    assert(seq![x].drop_last() =~= Seq::<nat>::empty());
    if b.len() == 0 {
        assert(a + b =~= a);
    } else {
        totals_add_up(a, b.drop_last(), x);
        assert((a + b).drop_last() =~= a + b.drop_last());
    }
}

/// A sweep of a table counts its bytes once for reading and once for writing.
pub proof fn sweeps_count_each_way(before: u64, all: u64)
    requires
        before + 2 * all <= u64::MAX,
    ensures
        swept_bytes(before, all, true, true) == before + 2 * all,
        swept_bytes(before, all, true, false) == before + all,
        swept_bytes(before, all, false, true) == before + all,
        swept_bytes(before, all, false, false) == before,
{
}

/// A step of the hash turns the bits of a word and multiplies, modulo a word.
pub proof fn accesses_are_mixed_in(h: u64, w: u64)
    ensures
        mixed(h, w) as int == (h ^ w) * 0x100_0000_01B3 % 0x1_0000_0000_0000_0000,
{
}

// ---- buffers -------------------------------------------------------------------------------------

/// A buffer covers its bytes, one at least, and no other address.
pub proof fn buffers_cover_their_bytes(a: u64, bytes: u64, seq: int, x: u64)
    requires
        a + bytes < u64::MAX,
        0 <= seq <= 0x1000_0000,
    ensures
        bytes > 0 ==> (region_of(a, bytes, seq).covers(x) <==> a <= x < a + bytes),
        bytes == 0 ==> (region_of(a, bytes, seq).covers(x) <==> x == a),
        region_of(a, bytes, seq).vbase == seq * 0x1_0000_0000,
{
}

proof fn lemma_free_slot(rs: Seq<Region>, i: int)
    requires
        0 <= i <= rs.len(),
    ensures
        i <= free_slot(rs, i) <= rs.len(),
        free_slot(rs, i) < rs.len() ==> !rs[free_slot(rs, i)].used,
        forall|k: int| i <= k < free_slot(rs, i) ==> (#[trigger] rs[k]).used,
    decreases rs.len() - i,
{
    if i < rs.len() && rs[i].used {
        lemma_free_slot(rs, i + 1);
    }
}

/// A buffer that is watched takes a free place, and all others stay watched as they
/// were.
pub proof fn watching_keeps_the_others(rs: Seq<Region>, a: u64, bytes: u64, seq: int)
    requires
        rs.len() < 256,
    ensures
        watched(rs, a, bytes, seq).contains(region_of(a, bytes, seq + 1)),
        forall|k: int| 0 <= k < rs.len() && (#[trigger] rs[k]).used ==> watched(rs, a, bytes, seq)[k] == rs[k],
        rs.len() <= watched(rs, a, bytes, seq).len() <= rs.len() + 1,
{
    lemma_free_slot(rs, 0);
    let i = free_slot(rs, 0);
    let t = watched(rs, a, bytes, seq);
    if i < rs.len() {
        assert(t[i] == region_of(a, bytes, seq + 1));
    } else {
        assert(t[rs.len() as int] == region_of(a, bytes, seq + 1));
    }
}

proof fn lemma_slot_at(rs: Seq<Region>, a: u64, i: int)
    requires
        0 <= i <= rs.len(),
    ensures
        i <= slot_at(rs, a, i) <= rs.len(),
        slot_at(rs, a, i) < rs.len() ==> rs[slot_at(rs, a, i)].used && rs[slot_at(rs, a, i)].lo == a,
        forall|k: int| i <= k < slot_at(rs, a, i) ==> !((#[trigger] rs[k]).used && rs[k].lo == a),
    decreases rs.len() - i,
{
    if i < rs.len() && !(rs[i].used && rs[i].lo == a) {
        lemma_slot_at(rs, a, i + 1);
    }
}

/// A buffer that is no longer watched is the first that begins at the address; it
/// covers nothing, and the others stay as they were.
pub proof fn unwatching_takes_one_away(rs: Seq<Region>, a: u64, i: int, x: u64)
    requires
        0 <= i < rs.len(),
        rs[i].used,
        rs[i].lo == a,
        forall|k: int| 0 <= k < i ==> !((#[trigger] rs[k]).used && rs[k].lo == a),
    ensures
        unwatched(rs, a).len() == rs.len(),
        !unwatched(rs, a)[i].covers(x),
        forall|k: int| 0 <= k < rs.len() && k != i ==> #[trigger] unwatched(rs, a)[k] == rs[k],
{
    lemma_slot_at(rs, a, 0);
    let j = slot_at(rs, a, 0);
    assert(j == i) by {
        if j < i {
            assert(!(rs[j].used && rs[j].lo == a));
        }
        if i < j {
            assert(!(rs[i].used && rs[i].lo == a));
        }
    }
}

/// An address is looked up in the first buffer that covers it.
pub proof fn addresses_are_found_in_their_buffers(rs: Seq<Region>, a: u64, i: int)
    requires
        0 <= i <= rs.len(),
    ensures
        i <= slot_over(rs, a, i) <= rs.len(),
        slot_over(rs, a, i) < rs.len() ==> rs[slot_over(rs, a, i)].used && rs[slot_over(rs, a, i)].lo <= a < rs[slot_over(rs, a, i)].hi,
        forall|k: int| i <= k < slot_over(rs, a, i) ==> !((#[trigger] rs[k]).used && rs[k].lo <= a < rs[k].hi),
    decreases rs.len() - i,
{
    if i < rs.len() && !rs[i].covers(a) {
        addresses_are_found_in_their_buffers(rs, a, i + 1);
    }
}

// ---- the cache -----------------------------------------------------------------------------------

proof fn lemma_way(tags: Seq<u64>, line: u64, w: int)
    requires
        0 <= w <= tags.len(),
    ensures
        w <= way_of(tags, line, w) <= tags.len(),
        way_of(tags, line, w) < tags.len() ==> tags[way_of(tags, line, w)] == line,
        forall|k: int| w <= k < way_of(tags, line, w) ==> #[trigger] tags[k] != line,
    decreases tags.len() - w,
{
    if w < tags.len() && tags[w] != line {
        lemma_way(tags, line, w + 1);
    }
}

proof fn lemma_oldest_exists(s: Seq<u64>) -> (i: int)
    requires
        s.len() > 0,
    ensures
        is_oldest(s, i),
    decreases s.len(),
{
    if s.len() == 1 {
        0
    } else {
        let t = s.drop_last();
        let j = lemma_oldest_exists(t);
        assert forall|k: int| 0 <= k < t.len() implies t[j] <= #[trigger] s[k] by {
            assert(t[j] <= t[k]);
        }
        if s.last() < t[j] {
            s.len() - 1
        } else {
            assert forall|k: int| 0 <= k < j implies s[j] < #[trigger] s[k] by {
                assert(t[j] < t[k]);
            }
            j
        }
    }
}

/// Where the set of a line lies.
proof fn lemma_set(sets: int, ways: int, line: u64)
    requires
        0 < sets,
        0 < ways,
    ensures
        0 <= (line as int % sets) * ways,
        (line as int % sets) * ways + ways <= sets * ways,
{
    let r = line as int % sets;
    assert(0 <= r * ways && r * ways + ways <= sets * ways) by (nonlinear_arith)
        requires
            0 <= r < sets,
            0 < ways,
    ;
}

/// A line is in the cache where one of the ways of its set holds it.
pub proof fn lines_are_held_in_their_sets(l: Lines, sets: int, ways: int, line: u64)
    requires
        0 < sets,
        0 < ways,
        l.tags.len() == sets * ways,
    ensures
        l.holds(sets, ways, line) <==> exists|k: int| 0 <= k < ways && #[trigger] l.tags[(line as int % sets) * ways + k] == line,
{
    let b = (line as int % sets) * ways;
    lemma_set(sets, ways, line);
    let t = l.tags.subrange(b, b + ways);
    lemma_way(t, line, 0);
    if l.holds(sets, ways, line) {
        let k = way_of(t, line, 0);
        assert(l.tags[b + k] == line);
    }
    if exists|k: int| 0 <= k < ways && #[trigger] l.tags[b + k] == line {
        let k = choose|k: int| 0 <= k < ways && #[trigger] l.tags[b + k] == line;
        assert(t[k] == line);
    }
}

/// A line that was used is in the cache. Where it was there before, all lines stay;
/// where it was not, one way of its set changes, the one with the least stamp, and
/// the lines of the other sets stay. The way carries the time of the use.
pub proof fn used_lines_are_held(l: Lines, sets: int, ways: int, line: u64, now: u64) -> (v: int)
    requires
        0 < sets,
        0 < ways,
        l.tags.len() == sets * ways,
        l.stamps.len() == sets * ways,
    ensures
        0 <= v < ways,
        l.used(sets, ways, line, now).holds(sets, ways, line),
        l.holds(sets, ways, line) ==> l.used(sets, ways, line, now).tags == l.tags,
        l.holds(sets, ways, line) ==> l.tags[(line as int % sets) * ways + v] == line,
        !l.holds(sets, ways, line) ==> forall|k: int|
            0 <= k < ways ==> l.stamps[(line as int % sets) * ways + v] <= #[trigger] l.stamps[(line as int % sets) * ways + k],
        l.used(sets, ways, line, now).tags == l.tags.update((line as int % sets) * ways + v, line),
        l.used(sets, ways, line, now).stamps == l.stamps.update((line as int % sets) * ways + v, now),
{
    let b = (line as int % sets) * ways;
    lemma_set(sets, ways, line);
    let t = l.tags.subrange(b, b + ways);
    let s = l.stamps.subrange(b, b + ways);
    lemma_way(t, line, 0);
    let u = l.used(sets, ways, line, now);
    let v = if l.holds(sets, ways, line) {
        way_of(t, line, 0)
    } else {
        let w = lemma_oldest_exists(s);
        assert(is_oldest(s, oldest(s)));
        oldest(s)
    };
    if l.holds(sets, ways, line) {
        assert(t[v] == l.tags[b + v]);
        assert(l.tags =~= l.tags.update(b + v, line));
    } else {
        assert forall|k: int| 0 <= k < ways implies l.stamps[b + v] <= #[trigger] l.stamps[b + k] by {
            assert(s[v] <= s[k]);
        }
    }
    assert(u.tags[b + v] == line);
    lines_are_held_in_their_sets(u, sets, ways, line);
    v
}

/// A line that is used twice in a row misses the second time in no level.
pub proof fn lines_used_again_do_not_miss(c: CacheState, line: u64)
    requires
        c.l1.tags.len() == 512,
        c.l1.stamps.len() == 512,
    ensures
        c.line_used(line).line_used(line).l1_misses == c.line_used(line).l1_misses,
        c.line_used(line).line_used(line).l2_misses == c.line_used(line).l2_misses,
        c.line_used(line).now == c.now + 1,
{
    let v = used_lines_are_held(c.l1, 64, 8, line, (c.now + 1) as u64);
}

/// A line that is in the first level misses nowhere, one that is in the second alone
/// misses in the first, and one that is in neither misses in both.
pub proof fn misses_are_counted(c: CacheState, line: u64)
    ensures
        c.line_used(line).l1_misses == c.l1_misses + if c.l1.holds(64, 8, line) {
            0int
        } else {
            1
        },
        c.line_used(line).l2_misses == c.l2_misses + if c.l1.holds(64, 8, line) || c.l2.holds(1024, 16, line) {
            0int
        } else {
            1
        },
{
}

/// The first use of a line misses in both levels.
pub proof fn an_empty_cache_misses(line: u64)
    requires
        line != u64::MAX,
    ensures
        CacheModel::empty().line_used(line).l1_misses == 1,
        CacheModel::empty().line_used(line).l2_misses == 1,
{
    let c = CacheModel::empty();
    lemma_set(64, 8, line);
    lemma_set(1024, 16, line);
    lines_are_held_in_their_sets(c.l1, 64, 8, line);
    lines_are_held_in_their_sets(c.l2, 1024, 16, line);
}

/// Lines are used one after the other.
pub proof fn lines_are_used_in_turn(c: CacheState, first: int, a: nat, b: nat)
    ensures
        c.lines_used(first, a + b) == c.lines_used(first, a).lines_used(first + a, b),
        c.lines_used(first, 0) == c,
        c.lines_used(first, 1) == c.line_used(first as u64),
    decreases b,
{
    reveal_with_fuel(CacheState::lines_used, 2);
    if b > 0 {
        lines_are_used_in_turn(c, first, a, (b - 1) as nat);
    }
}

/// An access uses the lines from that of its first byte to that of its last, 64 bytes
/// each.
pub proof fn accesses_use_the_lines_of_their_bytes(c: CacheState, va: int, bytes: int, first: int, n: nat)
    requires
        0 <= va,
        0 < bytes,
        0 < n,
        64 * first <= va < 64 * (first + 1),
        64 * (first + n - 1) <= va + bytes - 1 < 64 * (first + n),
    ensures
        c.bytes_used(va, bytes) == c.lines_used(first, n),
{
}

/// An access to a buffer that is watched is mixed in with its place in the buffer and
/// its kind, and uses the lines of its bytes; one that lies in no buffer is counted as
/// such and changes neither.
pub proof fn accesses_are_recorded(t: Trace, o: Trace, a: u64, bytes: int, op: u64, i: int)
    requires
        t.after_event(&o, a, bytes, op),
        op < 8,
        o.last >= o.regions@.len() || !o.regions@[o.last as int].covers(a),
        forall|k: int| 0 <= k < i && k < o.regions@.len() ==> !(#[trigger] o.regions@[k]).covers(a),
        0 <= i <= o.regions@.len(),
        i < o.regions@.len() ==> o.regions@[i].covers(a) && o.regions@[i].vbase + (a - o.regions@[i].lo) < 0x2000_0000_0000_0000,
    ensures
        i < o.regions@.len() ==> {
            let va = o.regions@[i].vbase + (a - o.regions@[i].lo);
            &&& t.hash as int == (o.hash ^ (8 * va + op) as u64) * 0x100_0000_01B3 % 0x1_0000_0000_0000_0000
            &&& t.cache.state() == o.cache.state().bytes_used(va, bytes)
            &&& t.unmapped == o.unmapped
        },
        i == o.regions@.len() ==> t.hash == o.hash && t.cache.state() == o.cache.state() && t.unmapped == o.unmapped.wrapping_add(1),
{
    let rs = o.regions@;
    addresses_are_found_in_their_buffers(rs, a, 0);
    let j = slot_over(rs, a, 0);
    assert(j == i) by {
        if j < i {
            assert(!rs[j].covers(a));
        }
        if i < j {
            assert(!(rs[i].used && rs[i].lo <= a < rs[i].hi));
        }
    }
    if i < rs.len() {
        let va = (rs[i].vbase + (a - rs[i].lo)) as u64;
        assert((va << 3) | op == 8 * va + op) by (bit_vector)
            requires
                va < 0x2000_0000_0000_0000,
                op < 8,
        ;
    }
}

} // verus!
