//! The measurements: inputs, counters, rows and tables.
use brainsort::bench::check::{check_file, check_row, file_cells, hold_to_golden, parse_file, parse_golden, FileError};
use brainsort::bench::counted::{counted_run, route_name, RunError};
use brainsort::bench::counts::{
    csv_header, matrix, run_cell, run_one, to_csv, verify_permutation, Algorithm, Cell, Measured, RowError, RustOpponents, ALGORITHMS, SEED,
};
use brainsort::bench::csv;
use brainsort::bench::datasets::{
    dataset_applies, generate, generate_keys, pattern_keys, str_items, uniform_i64, uniform_u64, ElementType, Int32Keys, Int64Keys, Mt19937_64, Pattern, TextKeys, TextPool, UnitKeys,
};
use brainsort::bench::machine::cpu_model;
use brainsort::bench::opponents::{Opponents, RadixCrate, Row, RADIX_CRATES};
use brainsort::bench::render::{decimal, hex16, json_str};
use brainsort::bench::timing::{
    arch_name, batch_for, civil_from_days, code_fingerprint, make, now_utc, os_name, stamp, table_header, too_large, SourceFile,
};
use brainsort::bench::trace::{CacheModel, Trace};
use brainsort::bench::watch::{alloc_arm, alloc_disarm, AllocStats, Counters, CountingAlloc};
use brainsort::bench::{make_reference, order_hash, verify_sorted, DblItem, Fault, I64Item, Item, Item2};
use brainsort::cpu::{cache_question, detect_caches, CacheLeaf, CacheSizes};
use std::cell::RefCell;
use std::cmp::Ordering;

// ---- the counts of every sort --------------------------------------------------------------------

/// A key whose comparisons are counted.
struct Seen<'a> {
    key: i32,
    counters: &'a RefCell<Counters>,
}

impl PartialEq for Seen<'_> {
    fn eq(&self, o: &Self) -> bool {
        self.key == o.key
    }
}

impl Eq for Seen<'_> {}

impl PartialOrd for Seen<'_> {
    fn partial_cmp(&self, o: &Self) -> Option<Ordering> {
        Some(self.cmp(o))
    }
}

impl Ord for Seen<'_> {
    fn cmp(&self, o: &Self) -> Ordering {
        self.counters.borrow_mut().note_compare(self.key < o.key);
        self.key.cmp(&o.key)
    }
}

fn no_memory() -> AllocStats {
    let mut w = CountingAlloc::new();
    alloc_arm(&mut w);
    alloc_disarm(&mut w)
}

/// The standard library's sorts on the items, with their comparisons and key
/// reads counted.
fn standard(a: Algorithm, mut v: Vec<Item>) -> (Vec<Item>, Measured) {
    let mut counters = Counters::new();
    match a {
        Algorithm::SliceSort => v.sort_by(|x, y| {
            counters.note_compare(x.key < y.key);
            x.key.cmp(&y.key)
        }),
        Algorithm::SliceSortUnstable => v.sort_unstable_by(|x, y| {
            counters.note_compare(x.key < y.key);
            x.key.cmp(&y.key)
        }),
        _ => {
            let seen = RefCell::new(Counters::new());
            v.sort_by_cached_key(|x| {
                seen.borrow_mut().note_key();
                Seen { key: x.key, counters: &seen }
            });
            counters = seen.into_inner();
        }
    }
    (v, Measured { counters, alloc: no_memory() })
}

#[test]
fn every_rust_sort_is_counted_on_one_cell() {
    let data = generate::<Item>("random", 1000, SEED).unwrap();
    let rows = run_cell(&data.items, None, Pattern::Random, &RustOpponents(standard));
    assert_eq!(rows.len(), ALGORITHMS);
    for r in &rows {
        assert!(r.ok(), "{}: {}", r.algorithm.name(), r.error.map(|e| e.message()).unwrap_or_default());
        if r.algorithm.name() == "slice::sort_by_cached_key" {
            assert_eq!(r.key_reads, Some(1000), "{}: key reads {:?}", r.algorithm.name(), r.key_reads);
        } else {
            assert_eq!(r.key_reads, None, "{}: key reads {:?}", r.algorithm.name(), r.key_reads);
        }
        if r.algorithm.name() == "brainsort" {
            assert_eq!(r.compares, 999);
        }
        if r.algorithm.name() != "brainsort" {
            assert!(r.compares >= 1000, "{}: {} compares", r.algorithm.name(), r.compares);
        }
    }
    let stable: Vec<u64> = rows.iter().filter(|r| r.algorithm.stable()).map(|r| r.order_hash).collect();
    assert!(stable.windows(2).all(|w| w[0] == w[1]), "the stable sorts must produce the same order");
}

/// A sort that does nothing.
fn lazy(_: Algorithm, v: Vec<Item>) -> (Vec<Item>, Measured) {
    (v, Measured { counters: Counters::new(), alloc: no_memory() })
}

#[test]
fn a_sort_that_does_nothing_is_found_out() {
    let items = vec![Item { key: 2, id: 0 }, Item { key: 1, id: 1 }];
    let rows = run_cell(&items, None, Pattern::Random, &RustOpponents(lazy));
    assert!(rows[0].ok());
    assert!(rows[1..].iter().all(|r| !r.ok()));
    assert_eq!(rows[1].error, Some(RowError::Result { fault: Fault::Mismatch { index: 0, id: 0, expected: 1 } }));
    assert_eq!(rows[2].error, Some(RowError::Result { fault: Fault::NotSorted { index: 1 } }));
    assert_eq!(rows[2].error.unwrap().message(), "not sorted at index 1");
}

#[test]
fn faults_in_words() {
    let good = vec![Item { key: 1, id: 0 }, Item { key: 1, id: 1 }];
    let reference = make_reference(&good);
    assert_eq!(verify_sorted(&good, &reference), Ok(()));
    assert_eq!(verify_sorted(&good[..1], &reference), Err(Fault::Size));
    assert_eq!(Fault::Size.message(), "size changed");
    let swapped = vec![good[1], good[0]];
    let e = verify_sorted(&swapped, &reference).unwrap_err();
    assert_eq!(e.message(), "mismatch at index 0 (id 1 vs expected id 0) - not sorted or not stable");
    assert_eq!(verify_permutation(&swapped, 2), Ok(()));
    let twice = vec![good[1], good[1]];
    assert_eq!(verify_permutation(&twice, 2), Err(Fault::NotPermutation));
    assert_eq!(Fault::NotPermutation.message(), "not a permutation of the input");
    let leaking = Measured { counters: Counters::new(), alloc: AllocStats { peak: 8, allocs: 1, leak: 8, sizes: [0; 16] } };
    let r = run_one(Pattern::Random, Algorithm::SliceSort, &good, &reference, &leaking);
    assert_eq!(r.error, Some(RowError::Leak { bytes: 8 }));
    assert_eq!(r.error.unwrap().message(), "aux_memory_leak:8");
    assert_eq!(RunError::Allocation.message(), "allocation failed");
    assert_eq!(RunError::Leak { bytes: 3 }.message(), "aux_memory_leak");
    assert_eq!(RunError::Result { fault: Fault::Size }.message(), "counted_pass_failed:size changed");
}

#[test]
fn a_counted_run_of_each_element_type() {
    let keys = generate_keys::<Int64Keys>("few_unique", 3000, SEED).unwrap();
    let items: Vec<I64Item> = keys.iter().enumerate().map(|(i, &key)| I64Item { key, id: i as u32, pad: 0 }).collect();
    let reference = make_reference(&items);
    let (det, out) = counted_run(&items, None, &reference);
    assert!(det.ok());
    assert_eq!(verify_sorted(&out, &reference), Ok(()));
    assert_eq!(det.order_hash, order_hash(&reference));
    assert_eq!(det.values().len(), 34);
    assert!(det.counters.compares > 0 && det.traffic.reads >= 3000);
    let doubles: Vec<DblItem> = (0..3000u32).map(|i| DblItem { bits: (((i * 7919 % 1000) as f64) - 500.0).to_bits(), id: i, pad: 0 }).collect();
    let reference = make_reference(&doubles);
    let (det, out) = counted_run(&doubles, None, &reference);
    assert!(det.ok());
    assert!(out.windows(2).all(|w| f64::from_bits(w[0].bits) <= f64::from_bits(w[1].bits)));
    let texts = generate_keys::<TextKeys>("random", 2000, SEED).unwrap();
    let items = str_items(&texts);
    let reference = make_reference(&items);
    let (det, out) = counted_run(&items, None, &reference);
    assert!(det.ok());
    assert!(det.seen.unmapped > 0);
    assert!(out.windows(2).all(|w| w[0].text <= w[1].text));
    let pool = TextPool::new(&texts);
    let items = pool.items();
    let reference = make_reference(&items);
    let (det, out) = counted_run(&items, Some(pool.bytes()), &reference);
    assert!(det.ok());
    assert_eq!(det.seen.unmapped, 0);
    assert!(out.windows(2).all(|w| w[0].text <= w[1].text));
    assert!(items.iter().zip(&texts).all(|(x, t)| x.text == t.as_slice()));
    assert_eq!(Item::element_type(), ElementType::Int32);
    assert_eq!(route_name(0), route_name(0));
}

fn ints_of(keys: &[i32]) -> Vec<Item> {
    keys.iter().enumerate().map(|(i, &key)| Item { key, id: i as u32 }).collect()
}

#[test]
fn what_a_run_compares_reads_and_writes() {
    let counts = |keys: &[i32]| {
        let items = ints_of(keys);
        let (det, _) = counted_run(&items, None, &make_reference(&items));
        assert!(det.ok());
        (det.counters.compares, det.counters.flips, det.traffic.reads, det.traffic.writes)
    };
    assert_eq!(counts(&[]), (0, 0, 0, 0));
    assert_eq!(counts(&[1, 2, 3]), (2, 0, 4, 2));
    assert_eq!(counts(&[3, 1, 2]), (3, 1, 5, 4));
    let rising: Vec<i32> = (0..1000).collect();
    assert_eq!(counts(&rising), (999, 0, 1000, 0));
    let falling: Vec<i32> = (0..1000).rev().collect();
    assert_eq!(counts(&falling), (999, 0, 2000, 1000));
    let two: Vec<i32> = (0..100).map(|i| 2 * i).chain((0..100).map(|i| 2 * i + 1)).collect();
    let (compares, _, reads, writes) = counts(&two);
    assert_eq!((compares, reads, writes), (199 + 199, 200 + 100 + 200, 100 + 199));
    let items = ints_of(&rising);
    let (det, _) = counted_run(&items, None, &make_reference(&items));
    let column = |name: &str| det.values().into_iter().find(|(c, _)| *c == name).unwrap().1;
    assert_eq!(column("traffic_bytes"), "8000");
    assert_eq!(column("compares"), "999");
    assert_eq!(column("table_bytes"), "0");
    assert_eq!(column("key_bytes"), "0");
}

/// Keys of 0 and 1 in no order.
fn coins(n: usize) -> Vec<i32> {
    let mut x = 12345u64;
    let mut keys = Vec::new();
    for _ in 0..n {
        x = (x * 1_103_515_245 + 12345) % (1 << 31);
        keys.push((x >> 16 & 1) as i32);
    }
    keys
}

#[test]
fn two_keys_are_parted() {
    let keys = coins(2048);
    let ones = keys.iter().filter(|k| **k == 1).count() as u64;
    let items = ints_of(&keys);
    let (det, _) = counted_run(&items, None, &make_reference(&items));
    assert!(det.ok());
    assert_eq!((det.stats.radix, det.stats.part_sorts, det.stats.radix_passes), (1, 1, 0));
    assert_eq!(det.counters.compares, 1024);
    assert_eq!((det.traffic.reads, det.traffic.writes), (1025 + 65 + 2049 + ones, 2048 + ones));
    assert_eq!((det.traffic.table_reads, det.traffic.table_writes), (0, 0));
    assert_eq!((det.alloc.allocs, det.alloc.peak), (1, (1024 + 64 + 8) * 8));
}

#[test]
fn a_second_run_shows_the_same_columns() {
    let falling: Vec<i32> = (0..500).rev().map(|i| i / 3).collect();
    let mixed: Vec<i32> = (0..3000).map(|i| i * 7919 % 1009).collect();
    let wide: Vec<i32> = (0..5000i32).map(|i| i.wrapping_mul(-1_640_531_527)).collect();
    let near: Vec<i32> = (0..4000).map(|i| if i % 300 == 50 { i - 500 } else { i }).collect();
    for keys in [vec![], vec![2, 1, 2, 0, 1], (0..700).collect(), falling, mixed, wide, near, coins(2048)] {
        let items = ints_of(&keys);
        let (a, x) = counted_run(&items, None, &make_reference(&items));
        let (b, y) = counted_run(&items, None, &make_reference(&items));
        assert_eq!(a.values(), b.values());
        assert!(x.iter().zip(&y).all(|(p, q)| p.id == q.id));
        assert_eq!((a.refusals, b.refusals), (0, 0));
    }
}

#[test]
fn the_first_route_and_the_depth_of_a_run() {
    let of = |keys: &[i32]| {
        let items = ints_of(keys);
        let (det, _) = counted_run(&items, None, &make_reference(&items));
        (det.stats.first_route, det.stats.max_depth, det.stats.depth)
    };
    assert_eq!(of(&[3, 1, 2]), (0, 0, 0));
    assert_eq!(of(&(0..40).collect::<Vec<i32>>()), (1, 1, 0));
    assert_eq!(of(&(0..40).rev().collect::<Vec<i32>>()), (2, 1, 0));
    assert_eq!(of(&(0..40).chain(0..40).collect::<Vec<i32>>()), (3, 1, 0));
    assert_eq!(of(&(0..4000).map(|i| if i % 300 == 50 { i - 500 } else { i }).collect::<Vec<i32>>()), (4, 1, 0));
    assert_eq!(of(&(0..4000).map(|i| i * 7919 % 4001).collect::<Vec<i32>>()), (5, 1, 0));
    let texts: Vec<String> = (0..64).map(|i| format!("prefix-{:02}-{:08}", i % 7, i * 37 % 64)).collect();
    let keys: Vec<Vec<u8>> = texts.iter().map(|t| t.clone().into_bytes()).collect();
    let pool = TextPool::new(&keys);
    let items = pool.items();
    let (det, _) = counted_run(&items, Some(pool.bytes()), &make_reference(&items));
    assert!(det.ok());
    assert!((1..=6).contains(&det.stats.max_depth));
}

/// The stable sort in the place of every other, with nothing counted.
fn ordered(_: Algorithm, mut v: Vec<Item>) -> (Vec<Item>, Measured) {
    v.sort_by_key(|x| x.key);
    (v, Measured { counters: Counters::new(), alloc: no_memory() })
}

#[test]
fn rows_of_which_only_the_order_matters() {
    let items = ints_of(&[5, 3, 5, 1, 3, 4, 1, 0]);
    let rows = run_cell(&items, None, Pattern::Random, &RustOpponents(ordered));
    assert_eq!(rows.len(), ALGORITHMS);
    for r in &rows {
        assert!(r.ok());
        assert_eq!((r.key_reads, r.aux_peak_bytes), (None, 0));
        assert_eq!(r.order_hash, rows[0].order_hash);
    }
    assert_eq!((rows[1].compares, rows[1].flips), (0, 0));
    let short: Vec<Item> = items.iter().rev().copied().collect();
    assert_ne!(run_cell(&short, None, Pattern::Random, &RustOpponents(ordered))[0].order_hash, rows[0].order_hash);
}

#[test]
fn about_half_an_element_of_scratch_memory_for_each() {
    let keys: Vec<i32> = (0..200_000u32).map(|i| i.wrapping_mul(2_654_435_761) as i32).collect();
    let items = ints_of(&keys);
    let (det, _) = counted_run(&items, None, &make_reference(&items));
    assert!(det.ok());
    assert_eq!(det.stats.splits, 1);
    assert!(det.alloc.peak <= 8 * 200_000 * 6 / 10, "{} bytes", det.alloc.peak);
    let rising: Vec<i32> = (0..200_000).collect();
    let items = ints_of(&rising);
    let (det, _) = counted_run(&items, None, &make_reference(&items));
    assert_eq!((det.alloc.peak, det.alloc.allocs), (0, 0));
}

#[test]
fn the_arrays_of_short_unordered_elements_and_of_a_few_runs() {
    let keys: Vec<i32> = (0..600).map(|i| i * 77 % 256).collect();
    let items = ints_of(&keys);
    let (det, _) = counted_run(&items, None, &make_reference(&items));
    assert_eq!((det.alloc.allocs, det.alloc.peak), (2, 600 * 8 + 256 * 4));
    let runs: Vec<i32> = (0..300).chain(0..300).collect();
    let items = ints_of(&runs);
    let (det, _) = counted_run(&items, None, &make_reference(&items));
    assert_eq!((det.alloc.allocs, det.alloc.peak), (1, 301 * 8));
}

#[test]
fn the_arrays_of_the_displaced_elements() {
    let keys: Vec<i32> = (0..10_000).map(|i| if i % 250 == 200 { i - 1000 } else { i }).collect();
    let items = ints_of(&keys);
    let (det, _) = counted_run(&items, None, &make_reference(&items));
    assert!(det.ok());
    assert_eq!(det.stats.displaced, 1);
    assert_eq!((det.alloc.allocs, det.alloc.leak), (4, 0));
    assert_eq!(det.alloc.sizes[..4], [256 * 8, 256 * 4, 256 * 4, 2 * 40 * 4]);
    assert_eq!(det.alloc.peak, 256 * 16 + 2 * 40 * 4);
    assert_eq!((det.traffic.table_reads, det.traffic.table_writes), (0, 2 * 40));
    assert_eq!(det.seen.unmapped, 0);
}

#[test]
fn a_radix_pass_touches_its_tables() {
    let keys: Vec<i32> = (0..600).map(|i| i * 77 % 256).collect();
    let items = ints_of(&keys);
    let (det, _) = counted_run(&items, None, &make_reference(&items));
    assert!(det.ok());
    assert_eq!((det.stats.radix, det.stats.radix_passes), (1, 1));
    assert_eq!(det.counters.compares, 599);
    assert_eq!((det.traffic.reads, det.traffic.writes), (600 + 600 + 600 + 600, 600 + 600));
    assert_eq!((det.traffic.table_reads, det.traffic.table_writes), (600 + 256 + 600, 256 + 600 + 256 + 600));
    assert_eq!(det.traffic.table_bytes, 4 * (det.traffic.table_reads + det.traffic.table_writes));
}

#[test]
fn the_columns_of_a_run_in_order() {
    let items = ints_of(&[2, 1]);
    let (det, _) = counted_run(&items, None, &make_reference(&items));
    let names: Vec<&str> = det.values().iter().map(|(c, _)| *c).collect();
    assert_eq!(names[..12], ["reads", "writes", "compares", "table_reads", "table_writes", "table_bytes", "key_bytes", "cmp_flips", "traffic_bytes", "l1_misses", "l2_misses", "unmapped"]);
    assert_eq!(names[32..], ["order_hash", "trace_hash"]);
    assert_eq!(det.values()[33].1, hex16(det.seen.hash));
    assert_eq!((det.seen.l1_misses, det.seen.l2_misses, det.seen.unmapped), (1, 1, 0));
}

/// What a trace of its own makes of accesses to an array of `n` items.
fn traced(n: usize, accesses: impl Fn(&mut Trace, &dyn Fn(usize) -> u64)) -> (u64, u64, u64) {
    let mut t = Trace::new();
    let base = 0x10_0000u64;
    t.begin(base, 8 * n as u64, true);
    accesses(&mut t, &|i| base + 8 * i as u64);
    (t.hash, t.cache.l1_misses(), t.cache.l2_misses())
}

#[test]
fn the_places_of_a_run_are_those_of_its_steps() {
    let seen = |keys: &[i32]| {
        let items = ints_of(keys);
        let (det, _) = counted_run(&items, None, &make_reference(&items));
        assert_eq!(det.seen.unmapped, 0);
        (det.seen.hash, det.seen.l1_misses, det.seen.l2_misses)
    };
    let rising: Vec<i32> = (0..1000).collect();
    let want = traced(1000, |t, at| {
        t.on_read(at(0), 8);
        for i in 1..1000 {
            t.on_read(at(i), 8);
            t.on_compare(false);
        }
    });
    assert_eq!(seen(&rising), want);
    assert_eq!((want.1, want.2), (125, 125));
    let falling: Vec<i32> = (0..100).rev().collect();
    let want = traced(100, |t, at| {
        t.on_read(at(0), 8);
        for i in 1..100 {
            t.on_read(at(i), 8);
            t.on_compare(true);
        }
        for i in 0..50 {
            t.on_read(at(i), 8);
            t.on_read(at(99 - i), 8);
            t.on_write(at(i), 8);
            t.on_write(at(99 - i), 8);
        }
    });
    assert_eq!(seen(&falling), want);
    let want = traced(3, |t, at| {
        t.on_read(at(1), 8);
        t.on_read(at(0), 8);
        t.on_compare(true);
        t.on_write(at(1), 8);
        t.on_write(at(0), 8);
        t.on_read(at(2), 8);
        t.on_read(at(1), 8);
        t.on_compare(true);
        t.on_write(at(2), 8);
        t.on_read(at(0), 8);
        t.on_compare(false);
        t.on_write(at(1), 8);
    });
    assert_eq!(seen(&[3, 1, 2]), want);
}

#[test]
fn every_access_lies_in_a_buffer_and_a_second_run_is_the_same() {
    for i in 0..12 {
        let p = Pattern::at(i);
        let keys = pattern_keys::<Int32Keys>(p, 6000, SEED);
        let items = ints_of(&keys);
        let reference = make_reference(&items);
        let (det, _) = counted_run(&items, None, &reference);
        assert!(det.ok() && det.seen.unmapped == 0, "{}", p.name());
        assert_eq!(det.values(), counted_run(&items, None, &reference).0.values(), "{}", p.name());
        if !dataset_applies(p.name(), "string") {
            continue;
        }
        let texts = pattern_keys::<TextKeys>(p, 6000, SEED);
        let pool = TextPool::new(&texts);
        let items = pool.items();
        let reference = make_reference(&items);
        let (det, _) = counted_run(&items, Some(pool.bytes()), &reference);
        assert!(det.ok() && det.seen.unmapped == 0, "text {}", p.name());
        assert_eq!(det.values(), counted_run(&items, Some(pool.bytes()), &reference).0.values(), "text {}", p.name());
    }
}

#[test]
fn the_bytes_of_text_keys_are_counted() {
    let texts: Vec<Vec<u8>> = (0..100).map(|i| format!("key {i:05}").into_bytes()).collect();
    let items = str_items(&texts);
    let (det, _) = counted_run(&items, None, &make_reference(&items));
    assert!(det.ok());
    let mut want = 8u64;
    for w in texts.windows(2) {
        let same = w[0].iter().zip(&w[1]).take_while(|(a, b)| a == b).count() as u64;
        want += 2 * (same + 1);
    }
    assert_eq!(det.traffic.key_bytes, want);
    assert_eq!((det.counters.compares, det.traffic.reads), (99, 100));
}

// ---- the rows and their file ---------------------------------------------------------------------

#[test]
fn a_file_that_was_just_written_has_no_differences() {
    let data = generate::<Item>("organ_pipe", 500, SEED).unwrap();
    let rows = run_cell(&data.items, None, Pattern::OrganPipe, &RustOpponents(standard));
    let text = to_csv(&rows);
    assert!(text.starts_with(&csv_header()));
    assert_eq!(csv_header(), "type,dataset,algorithm,stable,n,seed,ok,error,compares,cmp_flips,key_reads,aux_peak_bytes,order_hash");
    assert!(text.contains("int32,organ_pipe,slice::sort,1,500,20260912,1,,"));
    let file = parse_file(text.as_bytes()).unwrap();
    assert_eq!(file.len(), ALGORITHMS);
    let report = check_file(&file, &rows, 500);
    assert_eq!((report.checked, report.skipped, report.failures.len()), (ALGORITHMS, 0, 0));
    let report = check_file(&file, &rows, 499);
    assert_eq!((report.checked, report.skipped, report.failures.len()), (0, ALGORITHMS, 0));
    let mut other = parse_file(text.as_bytes()).unwrap();
    other[1].fields[1].value = String::from("7");
    let report = check_file(&other, &rows, 500);
    assert_eq!(report.failures.len(), 1);
    assert_eq!(report.failures[0].row, 1);
    let d = report.failures[0].differences.as_ref().unwrap();
    assert_eq!((d[0].column.as_str(), d[0].recorded.as_str()), ("compares", "7"));
    other[2].algorithm = String::from("bogosort");
    let report = check_file(&other, &rows, 500);
    assert_eq!(report.failures.len(), 2);
    assert!(report.failures[1].differences.is_none());
}

#[test]
fn files_that_cannot_be_read() {
    assert!(matches!(parse_file(b""), Err(FileError::Empty)));
    assert!(matches!(parse_file(b"type,dataset,n\n"), Err(FileError::NoColumn)));
    assert!(matches!(parse_file(b"type,dataset,algorithm,n\nint32,random\n"), Err(FileError::ShortLine)));
    assert!(matches!(parse_file(b"type,dataset,algorithm,n\nint32,random,brainsort,x\n"), Err(FileError::BadNumber)));
    assert!(matches!(parse_golden(b""), Err(FileError::Empty)));
    assert!(matches!(parse_file(b"type,dataset,algorithm,n\nint32,\xC3\xA9,brainsort,1\n"), Err(FileError::NotText)));
    assert!(matches!(parse_golden(b"type,\xFF\n"), Err(FileError::NotText)));
}

#[test]
fn short_lines_of_other_sorts_are_skipped() {
    let header = "algorithm,type,dataset,n,seed,ok,reads";
    let golden = parse_golden(format!("{header}\nother\nbrainsort,int32,random,5,7,0\nbrainsort,int32,random,5,7,1,9\n").as_bytes()).unwrap();
    assert_eq!(golden.len(), 1);
    assert_eq!((golden[0].n, golden[0].values.len()), (5, 1));
    assert!(matches!(parse_golden(format!("{header}\nbrainsort,int32,random\n").as_bytes()), Err(FileError::ShortLine)));
    assert!(matches!(parse_golden(format!("{header}\nbrainsort,int32,random,5,7,1\n").as_bytes()), Err(FileError::ShortLine)));
    assert!(matches!(parse_golden(format!("{header}\nbrainsort,int32,random,5,x,1,9\n").as_bytes()), Err(FileError::BadNumber)));
    assert!(matches!(parse_golden(b"type,dataset,algorithm,n,seed,ok\nint32\n"), Err(FileError::ShortLine)));
}

#[test]
fn recorded_runs_are_held_to_their_columns() {
    let data = generate::<Item>("random", 300, SEED).unwrap();
    let reference = make_reference(&data.items);
    let (det, _) = counted_run(&data.items, None, &reference);
    let hash = hex16(det.order_hash);
    let file = format!("type,dataset,algorithm,n,seed,ok,order_hash\nint32,random,brainsort,300,20260912,1,{hash}\nint32,random,other,300,20260912,1,0\nint32,random,brainsort,300,20260912,0,0\n");
    let golden = parse_golden(file.as_bytes()).unwrap();
    assert_eq!(golden.len(), 1);
    assert_eq!((golden[0].n, golden[0].seed), (300, 20260912));
    assert!(check_row(&golden[0], &det).is_empty());
    let file = file.replace(&hash, "00");
    let golden = parse_golden(file.as_bytes()).unwrap();
    let d = check_row(&golden[0], &det);
    assert_eq!((d.len(), d[0].recorded.as_str(), d[0].computed.as_str()), (1, "00", hash.as_str()));
    let golden = parse_golden(b"type,dataset,algorithm,n,seed,ok,compares\nint32,random,brainsort,300,20260912,1,5\n").unwrap();
    let rows = parse_file(b"type,dataset,algorithm,n,compares\nint32,random,brainsort,300,5\nint32,random,brainsort,300,6\nint64,random,brainsort,300,6\nint64,random,other,300,6\n").unwrap();
    let drift = hold_to_golden(&rows, &golden, 300);
    assert_eq!(drift.iter().map(|f| f.row).collect::<Vec<usize>>(), [1, 2]);
    let d = drift[0].differences.as_ref().unwrap();
    assert_eq!((d[0].column.as_str(), d[0].recorded.as_str(), d[0].computed.as_str()), ("compares", "6", "5"));
    assert!(drift[1].differences.is_none());
    assert_eq!(hold_to_golden(&rows, &golden, 299).len(), 0);
}

#[test]
fn tables_and_numbers() {
    let t = csv::parse_table(b"a,b\n1,2\n\n3,4\r\n").unwrap();
    assert_eq!(t.header, ["a", "b"]);
    assert_eq!(t.rows, [["1", "2"], ["3", "4"]]);
    assert!(csv::parse_table(b"").is_none());
    assert_eq!(csv::column(&t.header, "b"), Some(1));
    assert_eq!(csv::column(&t.header, "c"), None);
    assert_eq!(csv::parse_number("18446744073709551615"), Some(u64::MAX));
    assert_eq!(csv::parse_number("18446744073709551616"), None);
    assert_eq!(csv::parse_number(""), None);
    assert_eq!(csv::parse_number("12x"), None);
    assert_eq!(decimal(0), "0");
    assert_eq!(decimal(907), "907");
    assert_eq!(hex16(0xABCD), "000000000000abcd");
    assert_eq!(json_str("a\"b\\c\nd\u{1}"), "\"a\\\"b\\\\c\\nd\\u0001\"");
}

#[test]
fn the_matrix_of_cells() {
    let cells = matrix(&vec![10, 20]);
    assert_eq!(cells.len(), 2 * (4 * 12 - 3));
    assert_eq!((cells[0].n, cells[0].ty, cells[0].dataset), (10, ElementType::Int32, Pattern::Random));
    assert!(cells.iter().all(|c| c.dataset != Pattern::SparseBits || c.ty == ElementType::Int32));
    assert!(cells.windows(2).all(|w| w[0].n <= w[1].n));
    assert!(dataset_applies("sparse_bits", "int32") && !dataset_applies("sparse_bits", "string") && dataset_applies("runs", "string"));
}

// ---- the inputs ----------------------------------------------------------------------------------

#[test]
fn the_generator_draws_the_known_numbers() {
    // the ten thousandth number of the engine with its default seed
    let mut rng = Mt19937_64::new(5489);
    let mut last = 0;
    for _ in 0..10_000 {
        last = rng.next_u64();
    }
    assert_eq!(last, 9981545732273789042);
    let mut a = Mt19937_64::new(5489);
    assert_eq!(a.next_u64(), 14514284786278117030);
}

#[test]
fn uniform_draws_stay_in_their_range() {
    let mut rng = Mt19937_64::new(1);
    let mut seen = [false; 5];
    for _ in 0..200 {
        let x = uniform_u64(&mut rng, 3, 7);
        assert!((3..=7).contains(&x));
        seen[x as usize - 3] = true;
        let y = uniform_i64(&mut rng, -2, 2);
        assert!((-2..=2).contains(&y));
    }
    assert!(seen.iter().all(|&s| s));
    assert_eq!(uniform_u64(&mut rng, 9, 9), 9);
}

#[test]
fn datasets_have_their_shapes() {
    let sorted = generate_keys::<Int32Keys>("sorted", 100, SEED).unwrap();
    assert!(sorted.windows(2).all(|w| w[0] <= w[1]));
    let reverse = generate_keys::<Int64Keys>("reverse", 100, SEED).unwrap();
    assert!(reverse.windows(2).all(|w| w[0] >= w[1]));
    let equal = generate_keys::<TextKeys>("all_equal", 100, SEED).unwrap();
    assert!(equal.windows(2).all(|w| w[0] == w[1]));
    assert!(generate_keys::<Int32Keys>("bogus", 100, SEED).is_none());
    assert!(generate::<Item>("bogus", 1, SEED).is_none());
    for i in 0..12 {
        let p = Pattern::at(i);
        assert_eq!(Pattern::parse(p.name()), Some(p));
        assert_eq!(generate_keys::<Int32Keys>(p.name(), 257, SEED).unwrap().len(), 257);
    }
    assert_eq!(ElementType::parse("double"), Some(ElementType::Double));
    assert_eq!(ElementType::parse("float"), None);
}

#[test]
fn numbers_to_be_scaled() {
    let mut rng = Mt19937_64::new(SEED);
    let first = (rng.next_u64() >> 11) as i64;
    assert_eq!(generate_keys::<UnitKeys>("random", 3, SEED).unwrap()[0], first);
    assert_eq!(generate_keys::<UnitKeys>("prefixed", 3, SEED).unwrap()[0], first);
    assert_eq!(generate_keys::<UnitKeys>("all_equal", 1, SEED).unwrap(), [42]);
}

#[test]
fn timed_inputs() {
    let mut rng = Mt19937_64::new(3);
    let random = make::<Int64Keys>(Pattern::Random, 5, 3);
    assert_eq!(random, (0..5).map(|_| rng.next_u64() as i64).collect::<Vec<i64>>());
    assert_eq!(make::<Int32Keys>(Pattern::Sorted, 4, 3), [0, 1, 2, 3]);
    assert_eq!(make::<Int32Keys>(Pattern::Reverse, 4, 3), [4, 3, 2, 1]);
    assert!(make::<Int32Keys>(Pattern::FewUnique, 50, 3).iter().all(|x| (0..100).contains(x)));
    let mut near = make::<Int64Keys>(Pattern::NearlySorted, 1000, 3);
    assert!(near.windows(2).filter(|w| w[0] > w[1]).count() > 0);
    near.sort();
    assert_eq!(near, (0..1000).collect::<Vec<i64>>());
    assert_eq!(make::<TextKeys>(Pattern::Sorted, 1, 3)[0], b"1099511627776".to_vec());
    assert!(make::<Int32Keys>(Pattern::Runs, 10, 3).is_empty());
    assert_eq!((batch_for(0), batch_for(100_000), batch_for(10), batch_for(30_000)), (1, 1, 10_000, 4));
    assert!(too_large(true, 10_000_000) && !too_large(false, 10_000_000) && !too_large(true, 1_000_000));
}

// ---- the other sorts -----------------------------------------------------------------------------

#[test]
fn every_radix_crate_sorts_numbers() {
    let mut rng = Mt19937_64::new(11);
    for n in [0usize, 1, 100, 300, 5000, 20_000, 150_000] {
        let v: Vec<i64> = (0..n).map(|_| rng.next_u64() as i64).collect();
        let w: Vec<i32> = v.iter().map(|&x| x as i32).collect();
        let (mut vs, mut ws) = (v.clone(), w.clone());
        vs.sort();
        ws.sort();
        for i in 0..RADIX_CRATES {
            let c = RadixCrate::at(i);
            let mut a = v.clone();
            assert!(i64::run(c, &mut a));
            assert_eq!(a, vs, "{} on {n} i64", c.name());
            let mut b = w.clone();
            assert!(i32::run(c, &mut b));
            assert_eq!(b, ws, "{} on {n} i32", c.name());
        }
        let (mut a, mut b) = (v.clone(), w.clone());
        i64::brainsort(&mut a);
        i32::brainsort(&mut b);
        assert_eq!((a, b), (vs, ws));
    }
}

#[test]
fn rows_are_sorted_stably() {
    let mut rng = Mt19937_64::new(12);
    let rows: Vec<Row> = (0..3000u64)
        .map(|i| {
            let mut r = Row::new((rng.next_u64() % 50) as i64 - 25);
            r.payload[..8].copy_from_slice(&i.to_le_bytes());
            r
        })
        .collect();
    let mut expected = rows.clone();
    expected.sort_by_key(|r| r.key);
    let same = |a: &[Row]| a.iter().zip(&expected).all(|(x, y)| x.key == y.key && x.payload == y.payload);
    let mut a = rows.clone();
    assert!(Row::run(RadixCrate::Radsort, &mut a));
    assert!(same(&a));
    let mut b = rows.clone();
    Row::brainsort(&mut b);
    assert!(same(&b));
    let mut c = rows.clone();
    assert!(!Row::run(RadixCrate::Rdst, &mut c) && !Row::run(RadixCrate::VoraciousStable, &mut c) && !Row::run(RadixCrate::VoraciousUnstable, &mut c));
    assert!(c.iter().zip(&rows).all(|(x, y)| x.key == y.key && x.payload == y.payload));
}

// ---- the stamp of a run --------------------------------------------------------------------------

#[test]
fn dates_and_times() {
    assert_eq!(now_utc(0), "1970-01-01T00:00:00Z");
    assert_eq!(now_utc(951_782_400), "2000-02-29T00:00:00Z");
    assert_eq!(now_utc(1_700_000_000), "2023-11-14T22:13:20Z");
    assert_eq!(now_utc(4_107_542_399), "2100-02-28T23:59:59Z");
    assert_eq!(now_utc(4_107_542_400), "2100-03-01T00:00:00Z");
    let d = civil_from_days(365);
    assert_eq!((d.year, d.month, d.day), (1971, 1, 1));
}

#[test]
fn the_table_and_the_stamp() {
    let h = table_header();
    for i in 0..RADIX_CRATES {
        assert!(h.contains(RadixCrate::at(i).name()));
    }
    assert_eq!(h.lines().count(), 2);
    assert!(h.lines().all(|l| l.matches('|').count() == 12));
    let fields = vec![(String::from("host"), json_str("")), (String::from("reps"), String::from("3"))];
    assert_eq!(stamp(&fields), "<!-- stamp {\n  \"host\": \"\",\n  \"reps\": 3\n} -->");
    assert_eq!(stamp(&vec![]), "<!-- stamp {\n} -->");
    assert_eq!((os_name("linux"), os_name("windows"), os_name("macos"), os_name("plan9")), ("Linux", "Windows", "macOS", "plan9"));
    assert_eq!((arch_name("x86_64"), arch_name("aarch64"), arch_name("riscv64")), ("x86-64", "ARM64", "riscv64"));
}

/// The hash of a byte string.
fn fnv(bytes: &[u8]) -> u64 {
    bytes.iter().fold(0xcbf29ce484222325, |h, &c| (h ^ c as u64).wrapping_mul(0x100000001b3))
}

#[test]
fn the_fingerprint_goes_by_the_order_of_the_paths() {
    let file = |p: &str, d: &str| SourceFile { path: p.as_bytes().to_vec(), data: d.as_bytes().to_vec() };
    assert_eq!(code_fingerprint(vec![]), "");
    let expected = hex16(fnv(b"a\0x\ny\0b\0z\0"));
    assert_eq!(code_fingerprint(vec![file("a", "x\r\ny"), file("b", "z")]), expected);
    assert_eq!(code_fingerprint(vec![file("b", "z"), file("a", "x\ny")]), expected);
    assert_ne!(code_fingerprint(vec![file("b", "z")]), expected);
}

#[test]
fn the_name_of_the_processor() {
    let chars = |s: &str| s.chars().collect::<Vec<char>>();
    assert_eq!(cpu_model(&chars("processor\t: 0\nmodel name\t:  Some CPU @ 3 GHz \nmodel name\t: Other\n")), Some(String::from("Some CPU @ 3 GHz")));
    assert_eq!(cpu_model(&chars("the model name : x\n")), None);
    assert_eq!(cpu_model(&chars("")), None);
    assert_eq!(cpu_model(&chars("model name")), Some(String::new()));
}

// ---- the machine ---------------------------------------------------------------------------------

#[test]
fn caches_are_read_from_their_descriptions() {
    let common = CacheSizes::default();
    assert_eq!(detect_caches(&vec![]), common);
    // 8 ways, 1 partition, 64-byte lines, 64 sets: 32 KiB of data at level 1
    let leaf = |holds: u32, level: u32, ways: u32, sets: u32| CacheLeaf { eax: holds | level << 5, ebx: (ways - 1) << 22 | 63, ecx: sets - 1 };
    let leaves = vec![leaf(1, 1, 12, 64), leaf(2, 1, 8, 64), leaf(3, 2, 20, 1024), leaf(0, 3, 1, 1), leaf(3, 3, 16, 32768)];
    let c = detect_caches(&leaves);
    assert_eq!((c.l1d, c.l2, c.l3), (12 * 64 * 64, 20 * 64 * 1024, common.l3));
    assert_eq!(cache_question(3, 0, 0), None);
    assert_eq!(cache_question(4, 0, 0), Some(4));
    assert_eq!(cache_question(0, 0x8000_001D, 1 << 22), Some(0x8000_001D));
    assert_eq!(cache_question(4, 0x8000_001D, 0), Some(4));
}

#[test]
fn the_cache_model_counts_misses() {
    let mut m = CacheModel::new();
    m.touch(0, 8);
    assert_eq!((m.l1_misses(), m.l2_misses()), (1, 1));
    m.touch(8, 8);
    assert_eq!(m.l1_misses(), 1);
    m.touch(60, 8);
    assert_eq!(m.l1_misses(), 2);
    // nine lines of one set of eight ways: the first is gone from the first level only
    for i in 1..9u64 {
        m.touch(i * 4096, 1);
    }
    let (a, b) = (m.l1_misses(), m.l2_misses());
    m.touch(0, 1);
    assert_eq!((m.l1_misses(), m.l2_misses()), (a + 1, b));
}

#[test]
fn a_trace_counts_table_accesses() {
    let mut t = Trace::new();
    t.begin(1 << 20, 4096, true);
    t.on_table_read(1 << 20, 4);
    t.on_table_write((1 << 20) + 4, 4);
    assert_eq!((t.table_reads, t.table_writes, t.table_bytes), (1, 1, 8));
    assert_eq!(t.cache.l1_misses(), 1);
    t.on_table_sweep(1 << 20, 32, 4, true, true);
    assert_eq!((t.table_reads, t.table_writes, t.table_bytes), (33, 33, 8 + 2 * 128));
    assert_eq!(t.cache.l1_misses(), 2);
    t.on_table_sweep(1 << 20, 16, 4, false, true);
    assert_eq!((t.table_reads, t.table_writes, t.table_bytes), (33, 49, 8 + 2 * 128 + 64));
    t.on_table_sweep(1 << 20, 0, 4, true, false);
    assert_eq!((t.table_reads, t.unmapped), (33, 0));
    t.on_table_read(5, 4);
    assert_eq!((t.table_reads, t.unmapped), (34, 1));
}

#[test]
fn counters_start_again() {
    let mut c = Counters::new();
    c.note_compare(true);
    c.note_compare(false);
    c.note_key();
    assert_eq!((c.compares, c.flips, c.key_reads), (2, 1, 1));
    c.reset_counters();
    assert_eq!(c, Counters::new());
}

#[test]
fn a_trace_counts_what_happens() {
    let mut t = Trace::new();
    t.begin(4096, 800, true);
    t.on_read(4096, 8);
    t.on_write(4104, 8);
    t.on_compare(true);
    t.on_compare(false);
    t.on_compare(false);
    t.on_alloc(1 << 20, 64);
    t.on_free(1 << 20, 64);
    t.end();
    assert_eq!((t.reads, t.writes, t.compares, t.flips), (1, 1, 3, 1));
    assert_eq!((t.aux_peak, t.aux_current, t.aux_allocs), (64, 0, 1));
    t.begin(4096, 800, false);
    assert_eq!((t.reads, t.compares, t.aux_peak), (0, 0, 0));
}

#[test]
fn the_allocator_is_watched_while_armed() {
    let mut w = CountingAlloc::new();
    w.grow(5);
    assert_eq!(w.current, 0);
    alloc_arm(&mut w);
    w.grow(100);
    w.grow(50);
    w.shrink(100);
    let s = alloc_disarm(&mut w);
    assert_eq!((s.peak, s.allocs, s.leak), (150, 2, 50));
    assert_eq!(&s.sizes[..3], &[100, 50, 0]);
}

#[test]
fn the_cells_of_a_file_once_each() {
    let file = parse_file(b"type,dataset,algorithm,n\nint64,runs,a,300\nint32,random,a,300\nint64,runs,b,300\nint64,runs,a,301\nint64,walks,a,3\nreal,runs,a,3\nint64,runs,a,299\n").unwrap();
    let cell = |n, ty, dataset| Cell { n, ty, dataset };
    assert_eq!(
        file_cells(&file, 300),
        [cell(300, ElementType::Int64, Pattern::Runs), cell(300, ElementType::Int32, Pattern::Random), cell(299, ElementType::Int64, Pattern::Runs)]
    );
    assert!(file_cells(&file, 2).is_empty());
}

#[test]
fn how_the_datasets_hang_together() {
    let random = pattern_keys::<Int32Keys>(Pattern::Random, 5000, SEED);
    let rising = pattern_keys::<Int32Keys>(Pattern::Sorted, 5000, SEED);
    let mut falling = pattern_keys::<Int32Keys>(Pattern::Reverse, 5000, SEED);
    let mut nearly = pattern_keys::<Int32Keys>(Pattern::NearlySorted, 5000, SEED);
    let mut want = random.clone();
    want.sort();
    assert_eq!(rising, want);
    falling.reverse();
    assert_eq!(falling, want);
    assert_ne!(nearly, want);
    nearly.sort();
    assert_eq!(nearly, want);
    let mut timed = make::<Int64Keys>(Pattern::NearlySorted, 5000, SEED);
    let rising = make::<Int64Keys>(Pattern::Sorted, 5000, SEED);
    assert_ne!(timed, rising);
    timed.sort();
    assert_eq!(timed, rising);
}
