//! The parts of the timed comparison that do not take a clock: its inputs, its
//! repetition scheme, and the head of its table.
use crate::sort_by_key_ref;
use crate::bench::datasets::{
    draw, exchanged, leaves_all, lemma_exchanged, source_all, source_keys, KeyGen, Mt19937_64, Pattern,
    Source,
};
use crate::bench::render::{hex16, hex_of, padded_of, push_padded, same_text};
use crate::key::{by_leaves, Key, LeafModel};
use crate::order::{permutation, stable_sort_of};
use crate::permute::swap_at;
use crate::project::borrows;
use vstd::prelude::*;

verus! {

/// The size the repetition scheme is defined at: below it, several independent
/// copies are sorted back to back in one timed region, so that ten elements are
/// not timed as one call of a few nanoseconds.
pub const REFERENCE_N: usize = 100_000;

/// How many copies of an input are sorted in one timed region.
pub fn batch_for(n: usize) -> (r: usize)
    ensures
        n == 0 || n >= REFERENCE_N ==> r == 1,
        0 < n < REFERENCE_N ==> r * n >= REFERENCE_N && (r - 1) * n < REFERENCE_N,
{
    if n == 0 || n >= REFERENCE_N {
        1
    } else {
        let q: usize = REFERENCE_N / n;
        let r: usize = if REFERENCE_N % n == 0 {
            q
        } else {
            q + 1
        };
        proof {
            let (a, b) = (REFERENCE_N as int, n as int);
            vstd::arithmetic::div_mod::lemma_fundamental_div_mod(a, b);
            assert(b * (a / b) == (a / b) * b) by (nonlinear_arith);
            assert((a / b + 1) * b == (a / b) * b + b) by (nonlinear_arith);
            assert((a / b - 1) * b == (a / b) * b - b) by (nonlinear_arith);
        }
        r
    }
}

// ---- the inputs ----------------------------------------------------------------------------------

/// `k` pairs of elements change places, each place the remainder of a draw.
pub open spec fn swapped_by_draws(s: Seq<Seq<LeafModel>>, seed: u64, k: nat) -> Seq<Seq<LeafModel>>
    decreases k,
{
    if k == 0 {
        s
    } else {
        let t = swapped_by_draws(s, seed, (k - 1) as nat);
        let n = s.len() as int;
        exchanged(t, draw(seed, (2 * (k - 1)) as nat) as int % n, draw(seed, (2 * (k - 1) + 1) as nat) as int % n)
    }
}

/// The keys of an input.
pub open spec fn made_keys<G: KeyGen>(p: Pattern, n: nat, seed: u64) -> Seq<Seq<LeafModel>> {
    match p {
        Pattern::Random => source_keys::<G>(Source::Random, seed, n).0,
        Pattern::Sorted => Seq::new(n, |i: int| G::int_key(i as i64)),
        Pattern::Reverse => Seq::new(n, |i: int| G::int_key((n - i) as i64)),
        Pattern::FewUnique => Seq::new(n, |i: int| G::int_key((draw(seed, i as nat) % 100) as i64)),
        Pattern::NearlySorted => swapped_by_draws(Seq::new(n, |i: int| G::int_key(i as i64)), seed, n / 100),
        _ => Seq::empty(),
    }
}

proof fn lemma_swapped(s: Seq<Seq<LeafModel>>, seed: u64, k: nat)
    requires
        s.len() > 0,
    ensures
        permutation(s, swapped_by_draws(s, seed, k)),
        swapped_by_draws(s, seed, k).len() == s.len(),
    decreases k,
{
    if k > 0 {
        lemma_swapped(s, seed, (k - 1) as nat);
        let n = s.len() as int;
        lemma_exchanged(
            swapped_by_draws(s, seed, (k - 1) as nat),
            draw(seed, (2 * (k - 1)) as nat) as int % n,
            draw(seed, (2 * (k - 1) + 1) as nat) as int % n,
        );
    }
}

/// The input "nearly_sorted" holds the keys of "sorted", some of them in other
/// places.
pub proof fn nearly_sorted_input_is_a_permutation_of_sorted<G: KeyGen>(n: nat, seed: u64)
    ensures
        permutation(made_keys::<G>(Pattern::Sorted, n, seed), made_keys::<G>(Pattern::NearlySorted, n, seed)),
{
    if n >= 100 {
        lemma_swapped(made_keys::<G>(Pattern::Sorted, n, seed), seed, n / 100);
    }
}

/// The input of a pattern; empty for a pattern that is not timed.
pub fn make<G: KeyGen>(p: Pattern, n: usize, seed: u64) -> (v: Vec<G::Key>)
    requires
        n <= 0xFFFF_FFFF_FFFF,
    ensures
        leaves_all(v@) == made_keys::<G>(p, n as nat, seed),
{
    let mut rng: Mt19937_64 = Mt19937_64::new(seed);
    match p {
        Pattern::Random => source_all::<G>(Source::Random, &mut rng, n),
        Pattern::Sorted => ascending::<G>(n),
        Pattern::Reverse => {
            let mut v: Vec<G::Key> = Vec::with_capacity(n);
            while v.len() < n
                invariant
                    v@.len() <= n <= 0xFFFF_FFFF_FFFF,
                    forall|i: int| 0 <= i < v@.len() ==> (#[trigger] v@[i]).leaves() == G::int_key((n - i) as i64),
                decreases n - v@.len(),
            {
                v.push(G::from_int((n - v.len()) as i64));
            }
            assert(leaves_all(v@) =~= made_keys::<G>(p, n as nat, seed));
            v
        },
        Pattern::FewUnique => {
            let mut v: Vec<G::Key> = Vec::with_capacity(n);
            while v.len() < n
                invariant
                    rng.wf(),
                    rng.seed() == seed,
                    rng.drawn() == v@.len(),
                    v@.len() <= n,
                    forall|i: int| 0 <= i < v@.len() ==> (#[trigger] v@[i]).leaves() == G::int_key((draw(seed, i as nat) % 100) as i64),
                decreases n - v@.len(),
            {
                v.push(G::from_int((rng.next_u64() % 100) as i64));
            }
            assert(leaves_all(v@) =~= made_keys::<G>(p, n as nat, seed));
            v
        },
        Pattern::NearlySorted => {
            let mut v: Vec<G::Key> = ascending::<G>(n);
            let ghost s = leaves_all(v@);
            let swaps: usize = n / 100;
            let mut k: usize = 0;
            while k < swaps
                invariant
                    k <= swaps == n / 100,
                    n == v@.len() == s.len(),
                    rng.wf(),
                    rng.seed() == seed,
                    rng.drawn() == 2 * k,
                    leaves_all(v@) == swapped_by_draws(s, seed, k as nat),
                decreases swaps - k,
            {
                let ghost before = v@;
                let a: usize = (rng.next_u64() % n as u64) as usize;
                let b: usize = (rng.next_u64() % n as u64) as usize;
                swap_at(&mut v, a, b);
                k += 1;
                assert(leaves_all(v@) =~= exchanged(leaves_all(before), a as int, b as int));
            }
            v
        },
        _ => {
            let v: Vec<G::Key> = Vec::new();
            assert(leaves_all(v@) =~= Seq::<Seq<LeafModel>>::empty());
            v
        },
    }
}

fn ascending<G: KeyGen>(n: usize) -> (v: Vec<G::Key>)
    requires
        n <= 0xFFFF_FFFF_FFFF,
    ensures
        leaves_all(v@) == Seq::new(n as nat, |i: int| G::int_key(i as i64)),
        v@.len() == n,
{
    let mut v: Vec<G::Key> = Vec::with_capacity(n);
    while v.len() < n
        invariant
            v@.len() <= n <= 0xFFFF_FFFF_FFFF,
            forall|i: int| 0 <= i < v@.len() ==> (#[trigger] v@[i]).leaves() == G::int_key(i as i64),
        decreases n - v@.len(),
    {
        v.push(G::from_int(v.len() as i64));
    }
    assert(leaves_all(v@) =~= Seq::new(n as nat, |i: int| G::int_key(i as i64)));
    v
}

// ---- the table -----------------------------------------------------------------------------------

/// The head of the table.
pub fn table_header() -> (r: String)
    ensures
        r@ == "| type | n | dataset | brainsort | std sort (stable) | std sort_unstable | radsort | voracious stable | voracious unstable | rdst | vs best |\n|---|---:|---|---:|---:|---:|---:|---:|---:|---:|---:|"@,
{
    String::from_str(
        "| type | n | dataset | brainsort | std sort (stable) | std sort_unstable | radsort | voracious stable | voracious unstable | rdst | vs best |\n|---|---:|---|---:|---:|---:|---:|---:|---:|---:|---:|",
    )
}

// ---- the date ------------------------------------------------------------------------------------

/// A leap year.
pub open spec fn is_leap(y: int) -> bool {
    y % 4 == 0 && (y % 100 != 0 || y % 400 == 0)
}

/// The days of a month.
pub open spec fn month_days(y: int, m: int) -> int {
    if m == 2 {
        if is_leap(y) {
            29
        } else {
            28
        }
    } else if m == 4 || m == 6 || m == 9 || m == 11 {
        30
    } else {
        31
    }
}

/// The days of the years before `y`, from the year 0 on.
pub open spec fn days_before_year(y: int) -> int {
    365 * y + (y + 3) / 4 - (y + 99) / 100 + (y + 399) / 400
}

/// The days of the months before `m`.
pub open spec fn days_before_month(y: int, m: int) -> int
    decreases m,
{
    if m <= 1 {
        0
    } else {
        days_before_month(y, m - 1) + month_days(y, m - 1)
    }
}

/// The number of a day, counted from the first of January 1970 on.
pub open spec fn day_number(y: int, m: int, d: int) -> int {
    days_before_year(y) - 719528 + days_before_month(y, m) + d - 1
}

/// A date of the calendar.
#[derive(Clone, Copy, Debug, PartialEq, Eq, Structural)]
pub struct Date {
    pub year: u64,
    pub month: u64,
    pub day: u64,
}

/// A year is as long as its months.
pub proof fn year_adds_up(y: int)
    ensures
        days_before_year(y + 1) == days_before_year(y) + days_before_month(y, 13),
        days_before_month(y, 13) == if is_leap(y) {
            366int
        } else {
            365
        },
{
    reveal_with_fuel(days_before_month, 14);
    assert((y + 4) / 4 - (y + 3) / 4 == if y % 4 == 0 {
        1int
    } else {
        0
    });
    assert((y + 100) / 100 - (y + 99) / 100 == if y % 100 == 0 {
        1int
    } else {
        0
    });
    assert((y + 400) / 400 - (y + 399) / 400 == if y % 400 == 0 {
        1int
    } else {
        0
    });
}

/// The date of a day.
pub fn civil_from_days(days: u64) -> (r: Date)
    requires
        days <= 0xFFFF_FFFF_FFFF,
    ensures
        1 <= r.month <= 12,
        1 <= r.day <= month_days(r.year as int, r.month as int),
        day_number(r.year as int, r.month as int, r.day as int) == days,
{
    let z: u64 = days + 719468;
    let era: u64 = z / 146097;
    let doe: u64 = z - era * 146097;
    let yoe: u64 = (doe - doe / 1460 + doe / 36524 - doe / 146096) / 365;
    proof {
        lemma_year_of_era(doe as int);
    }
    let doy: u64 = doe - (365 * yoe + yoe / 4 - yoe / 100);
    let mp: u64 = (5 * doy + 2) / 153;
    let d: u64 = doy - (153 * mp + 2) / 5 + 1;
    let m: u64 = if mp < 10 {
        mp + 3
    } else {
        mp - 9
    };
    let y: u64 = yoe + era * 400 + if m <= 2 {
        1
    } else {
        0
    };
    proof {
        lemma_civil(era as int, yoe as int, doy as int);
    }
    Date { year: y, month: m, day: d }
}

/// The year of a day in its era of 400 years that begin in March, one century after
/// the other.
#[verifier::rlimit(100)]
#[verifier::spinoff_prover]
proof fn lemma_year_of_era(doe: int)
    requires
        0 <= doe < 146097,
    ensures
        ({
            let yoe = (doe - doe / 1460 + doe / 36524 - doe / 146096) / 365;
            let s = 365 * yoe + yoe / 4 - yoe / 100;
            &&& 0 <= yoe < 400
            &&& 0 <= doe - s <= 365
            &&& doe - s == 365 ==> yoe % 4 == 3 && (yoe % 100 != 99 || yoe == 399)
        }),
{
    let c = doe / 36524;
    if c == 0 {
        assert(doe / 146096 == 0);
    } else if c == 1 {
        assert(doe / 146096 == 0);
    } else if c == 2 {
        assert(doe / 146096 == 0);
    } else if c == 3 {
        assert(doe / 146096 == 0);
    } else {
        assert(doe == 146096);
    }
}

/// The months of a year, counted out.
proof fn lemma_months(y: int)
    ensures
        days_before_month(y, 1) == 0,
        days_before_month(y, 2) == 31,
        days_before_month(y, 3) == 31 + month_days(y, 2),
        forall|k: int| 3 <= k <= 12 ==> #[trigger] days_before_month(y, k) == days_before_month(y, 3) + (153 * (k - 3) + 2) / 5,
{
    reveal_with_fuel(days_before_month, 13);
}

/// Division by 4, rounded up, and of the next number.
proof fn lemma_by_4(x: int)
    ensures
        (x + 3) / 4 == x / 4 + if x % 4 == 0 {
            0int
        } else {
            1
        },
        (x + 4) / 4 == x / 4 + 1,
        (x + 1) % 4 == 0 <==> x % 4 == 3,
{
}

/// Division by 100, rounded up, and of the next number.
proof fn lemma_by_100(x: int)
    ensures
        (x + 99) / 100 == x / 100 + if x % 100 == 0 {
            0int
        } else {
            1
        },
        (x + 100) / 100 == x / 100 + 1,
        (x + 1) % 100 == 0 <==> x % 100 == 99,
{
}

/// Division by 400, rounded up, and of the next number.
proof fn lemma_by_400(x: int)
    ensures
        (x + 399) / 400 == x / 400 + if x % 400 == 0 {
            0int
        } else {
            1
        },
        (x + 400) / 400 == x / 400 + 1,
        (x + 1) % 400 == 0 <==> x % 400 == 399,
{
}

/// A year and its number within its era.
proof fn lemma_within_era(era: int, yoe: int)
    requires
        0 <= yoe < 400,
    ensures
        ({
            let y = yoe + era * 400;
            &&& y / 4 == yoe / 4 + 100 * era && y % 4 == yoe % 4
            &&& y / 100 == yoe / 100 + 4 * era && y % 100 == yoe % 100
            &&& y / 400 == era && y % 400 == yoe
        }),
{
    let y = yoe + era * 400;
    assert(y / 4 == yoe / 4 + 100 * era && y % 4 == yoe % 4);
    assert(y / 100 == yoe / 100 + 4 * era && y % 100 == yoe % 100);
}

/// The first of March of a year, and the first of January after it.
proof fn lemma_march(era: int, yoe: int)
    requires
        0 <= yoe < 400,
    ensures
        ({
            let y = yoe + era * 400;
            let before = era * 146097 + 365 * yoe + yoe / 4 - yoe / 100;
            &&& days_before_year(y) + 31 + month_days(y, 2) == before + 60
            &&& days_before_year(y + 1) == before + 366
            &&& (yoe % 4 == 3 && (yoe % 100 != 99 || yoe == 399)) == is_leap(y + 1)
        }),
{
    let y = yoe + era * 400;
    lemma_within_era(era, yoe);
    lemma_by_4(y);
    lemma_by_100(y);
    lemma_by_400(y);
    lemma_leap(yoe);
}

/// A year divisible by 400 is divisible by 100, and one divisible by 100 by 4.
proof fn lemma_leap(yoe: int)
    ensures
        yoe % 400 == 0 ==> yoe % 100 == 0,
        yoe % 100 == 0 ==> yoe % 4 == 0,
{
}

/// The date of a day of a year that begins in March.
proof fn lemma_civil(era: int, yoe: int, doy: int)
    requires
        0 <= era,
        0 <= yoe < 400,
        0 <= doy <= 365,
        doy == 365 ==> yoe % 4 == 3 && (yoe % 100 != 99 || yoe == 399),
    ensures
        ({
            let mp = (5 * doy + 2) / 153;
            let d = doy - (153 * mp + 2) / 5 + 1;
            let m = if mp < 10 {
                mp + 3
            } else {
                mp - 9
            };
            let y = yoe + era * 400 + if m <= 2 {
                1int
            } else {
                0
            };
            &&& 1 <= m <= 12
            &&& 1 <= d <= month_days(y, m)
            &&& day_number(y, m, d) == era * 146097 + 365 * yoe + yoe / 4 - yoe / 100 + doy - 719468
        }),
{
    let y = yoe + era * 400;
    lemma_march(era, yoe);
    lemma_months(y);
    lemma_months(y + 1);
    let mp = (5 * doy + 2) / 153;
    assert(mp == 0 || mp == 1 || mp == 2 || mp == 3 || mp == 4 || mp == 5 || mp == 6 || mp == 7 || mp == 8 || mp == 9 || mp == 10 || mp == 11);
}

/// A time of the day and its date, as text.
pub open spec fn utc_of(d: Date, second: int) -> Seq<char> {
    padded_of(d.year as nat, 4).push('-') + padded_of(d.month as nat, 2).push('-') + padded_of(d.day as nat, 2).push('T') + padded_of((second / 3600) as nat, 2).push(':')
        + padded_of((second % 3600 / 60) as nat, 2).push(':') + padded_of((second % 60) as nat, 2).push('Z')
}

/// The time `secs` seconds after the start of 1970, as `YYYY-MM-DDTHH:MM:SSZ`.
pub fn now_utc(secs: u64) -> (r: String)
    ensures
        exists|d: Date|
            1 <= d.month <= 12 && 1 <= d.day <= month_days(d.year as int, d.month as int) && day_number(d.year as int, d.month as int, d.day as int)
                == secs / 86400 && r@ == #[trigger] utc_of(d, secs as int % 86400),
{
    let d: Date = civil_from_days(secs / 86400);
    let second: u64 = secs % 86400;
    let mut s: String = String::new();
    push_padded(&mut s, d.year, 4);
    s.push('-');
    push_padded(&mut s, d.month, 2);
    s.push('-');
    push_padded(&mut s, d.day, 2);
    s.push('T');
    push_padded(&mut s, second / 3600, 2);
    s.push(':');
    push_padded(&mut s, second % 3600 / 60, 2);
    s.push(':');
    push_padded(&mut s, second % 60, 2);
    s.push('Z');
    assert(s@ =~= utc_of(d, secs as int % 86400));
    s
}

/// No two dates have the same number, and a later date has a larger one.
pub proof fn dates_in_order(a: Date, b: Date)
    requires
        1 <= a.month <= 12,
        1 <= a.day <= month_days(a.year as int, a.month as int),
        1 <= b.month <= 12,
        1 <= b.day <= month_days(b.year as int, b.month as int),
        a.year < b.year || (a.year == b.year && (a.month < b.month || (a.month == b.month && a.day < b.day))),
    ensures
        day_number(a.year as int, a.month as int, a.day as int) < day_number(b.year as int, b.month as int, b.day as int),
{
    let (ya, yb) = (a.year as int, b.year as int);
    lemma_months(ya);
    lemma_months(yb);
    year_adds_up(ya);
    reveal_with_fuel(days_before_month, 2);
    lemma_month_start(ya, a.month as int, 13);
    if ya < yb {
        lemma_years(ya + 1, yb);
        lemma_month_start(yb, 1, b.month as int);
    } else if a.month < b.month {
        lemma_month_start(ya, a.month as int, b.month as int);
    }
}

proof fn lemma_years(y: int, z: int)
    requires
        y <= z,
    ensures
        days_before_year(y) <= days_before_year(z),
    decreases z - y,
{
    if y < z {
        lemma_years(y, z - 1);
        year_adds_up(z - 1);
    }
}

proof fn lemma_month_start(y: int, m: int, k: int)
    requires
        1 <= m <= k <= 13,
    ensures
        m < k ==> days_before_month(y, m) + month_days(y, m) <= days_before_month(y, k),
        days_before_month(y, 1) <= days_before_month(y, m) <= days_before_month(y, k),
    decreases k,
{
    if m < k {
        lemma_month_start(y, m, k - 1);
    } else if m > 1 {
        lemma_month_start(y, m - 1, k - 1);
    }
}

// ---- the measured code ---------------------------------------------------------------------------

/// A file of the measured code.
pub struct SourceFile {
    pub path: Vec<u8>,
    pub data: Vec<u8>,
}

/// The start of a fingerprint.
pub const CODE_OFFSET: u64 = 0xcbf2_9ce4_8422_2325;

/// The factor of a fingerprint.
pub const CODE_PRIME: u64 = 0x100_0000_01b3;

/// A byte is mixed in.
pub open spec fn code_mix(h: u64, c: u8) -> u64 {
    ((h ^ c as u64) * CODE_PRIME % 0x1_0000_0000_0000_0000) as u64
}

/// Bytes are mixed in, one after the other, but for those of a carriage return
/// where these are left out.
pub open spec fn code_mixed(h: u64, s: Seq<u8>, strip: bool) -> u64
    decreases s.len(),
{
    if s.len() == 0 {
        h
    } else {
        let g = code_mixed(h, s.drop_last(), strip);
        if strip && s.last() == 13 {
            g
        } else {
            code_mix(g, s.last())
        }
    }
}

/// Files are mixed in: the path, a zero, the contents, a zero.
pub open spec fn code_files(h: u64, s: Seq<SourceFile>) -> u64
    decreases s.len(),
{
    if s.len() == 0 {
        h
    } else {
        let g = code_files(h, s.drop_last());
        let f = s.last();
        code_mix(code_mixed(code_mix(code_mixed(g, f.path@, false), 0), f.data@, true), 0)
    }
}

/// Files in the order of their paths.
pub open spec fn path_le() -> spec_fn(SourceFile, SourceFile) -> bool {
    by_leaves(|f: SourceFile| f.path.leaves())
}

fn path_of(f: &SourceFile) -> (r: &Vec<u8>)
    ensures
        r == &f.path,
{
    &f.path
}

fn mix_byte(h: u64, c: u8) -> (r: u64)
    ensures
        r == code_mix(h, c),
{
    (h ^ c as u64).wrapping_mul(CODE_PRIME)
}

fn mix_bytes(h: u64, s: &Vec<u8>, strip: bool) -> (r: u64)
    ensures
        r == code_mixed(h, s@, strip),
{
    let mut g: u64 = h;
    let mut i: usize = 0;
    while i < s.len()
        invariant
            i <= s@.len(),
            g == code_mixed(h, s@.take(i as int), strip),
        decreases s@.len() - i,
    {
        if !(strip && s[i] == 13) {
            g = mix_byte(g, s[i]);
        }
        i += 1;
        assert(s@.take(i as int).drop_last() =~= s@.take(i - 1));
    }
    assert(s@.take(i as int) =~= s@);
    g
}

/// The fingerprint of the measured code: a hash over the paths and contents of
/// its files in the order of the paths. Empty where there is no file.
pub fn code_fingerprint(files: Vec<SourceFile>) -> (r: String)
    ensures
        files@.len() == 0 ==> r@.len() == 0,
        files@.len() > 0 ==> exists|s: Seq<SourceFile>| #[trigger] stable_sort_of(path_le(), files@, s) && r@ == hex_of(code_files(CODE_OFFSET, s) as nat, 16),
{
    if files.len() == 0 {
        return String::new();
    }
    let mut v: Vec<SourceFile> = files;
    proof {
        let k = |f: SourceFile| f.path.leaves();
        assert(borrows(path_of, k));
        assert(by_leaves(k) == path_le());
    }
    sort_by_key_ref(v.as_mut_slice(), path_of);
    proof {
        let k = |f: SourceFile| f.path.leaves();
        assert(borrows(path_of, k));
    }
    let mut h: u64 = CODE_OFFSET;
    let mut i: usize = 0;
    while i < v.len()
        invariant
            i <= v@.len(),
            h == code_files(CODE_OFFSET, v@.take(i as int)),
        decreases v@.len() - i,
    {
        h = mix_byte(mix_bytes(mix_byte(mix_bytes(h, &v[i].path, false), 0), &v[i].data, true), 0);
        i += 1;
        assert(v@.take(i as int).drop_last() =~= v@.take(i - 1));
    }
    assert(v@.take(i as int) =~= v@);
    hex16(h)
}

// ---- the machine ---------------------------------------------------------------------------------

/// The name of an operating system, as the stamp of a run shows it.
pub fn os_name<'a>(os: &'a str) -> (r: &'a str)
    ensures
        r@ == if os@ == "linux"@ {
            "Linux"@
        } else if os@ == "windows"@ {
            "Windows"@
        } else if os@ == "macos"@ {
            "macOS"@
        } else {
            os@
        },
{
    if same_text(os, "linux") {
        "Linux"
    } else if same_text(os, "windows") {
        "Windows"
    } else if same_text(os, "macos") {
        "macOS"
    } else {
        os
    }
}

/// The name of a processor family, as the stamp of a run shows it.
pub fn arch_name<'a>(arch: &'a str) -> (r: &'a str)
    ensures
        r@ == if arch@ == "x86_64"@ {
            "x86-64"@
        } else if arch@ == "aarch64"@ {
            "ARM64"@
        } else {
            arch@
        },
{
    if same_text(arch, "x86_64") {
        "x86-64"
    } else if same_text(arch, "aarch64") {
        "ARM64"
    } else {
        arch
    }
}

/// Whether a size of a type is left out of the timed comparison: ten million
/// strings or rows take too much memory.
pub fn too_large(wide: bool, n: usize) -> (r: bool)
    ensures
        r == (wide && n > 1_000_000),
{
    wide && n > 1_000_000
}

/// The stamp of a run: its fields as a comment of the table's file.
pub open spec fn stamp_of(fields: Seq<(Seq<char>, Seq<char>)>, last: bool) -> Seq<char>
    decreases fields.len(),
{
    if fields.len() == 0 {
        "<!-- stamp {\n"@
    } else {
        let (k, v) = fields.last();
        stamp_of(fields.drop_last(), false) + "  \""@ + k + "\": "@ + v + if last {
            "\n"@
        } else {
            ",\n"@
        }
    }
}

/// The fields as texts.
pub open spec fn field_texts(fields: Seq<(String, String)>) -> Seq<(Seq<char>, Seq<char>)> {
    Seq::new(fields.len(), |i: int| (fields[i].0@, fields[i].1@))
}

/// The stamp of a run.
pub fn stamp(fields: &Vec<(String, String)>) -> (r: String)
    ensures
        r@ == stamp_of(field_texts(fields@), true) + "} -->"@,
{
    let mut s: String = String::from_str("<!-- stamp {\n");
    let n: usize = fields.len();
    let ghost t = field_texts(fields@);
    let mut i: usize = 0;
    while i < n
        invariant
            i <= n == fields@.len(),
            t == field_texts(fields@),
            s@ == stamp_of(t.take(i as int), i == n),
        decreases n - i,
    {
        s.append("  \"");
        s.append(fields[i].0.as_str());
        s.append("\": ");
        s.append(fields[i].1.as_str());
        i += 1;
        if i < n {
            s.append(",\n");
        } else {
            s.append("\n");
        }
        assert(t.take(i as int).drop_last() =~= t.take(i - 1));
        assert(t.take(i as int).last() == t[i - 1]);
    }
    assert(t.take(i as int) =~= t);
    s.append("} -->");
    s
}

} // verus!
