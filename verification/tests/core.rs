//! The parts of the sort, each held against a plain statement of what it does.
use brainsort::algorithm::monotone::reverse_all;
use brainsort::algorithm::partition::{partition2_scalar, partition_sort_few, split2_scalar};
use brainsort::algorithm::plan::{choose_plan, digit_width, PlanKind};
use brainsort::algorithm::radix_route::{pick_pivot, split_forward, split_forward_scalar, Pivot};
use brainsort::algorithm::scout::{commit_now, compute_mask, scout, scout_scalar, ScoutResult};
use brainsort::algorithm::{Scratch, COMMIT_BLOCK};
use brainsort::api::{prescan_plain, Plain, Shape};
use brainsort::compare::BySign;
use brainsort::compsort::{max_runs, merge_natural_runs, RUNS_MIN};
use brainsort::cpu::Machine;
use brainsort::infer::{sort_by_inferred_impl, PlainBytes};
use brainsort::key::number::{F32Bits, F64Bits};
use brainsort::key::Key;
use brainsort::less::ByLess;
use brainsort::bench::Item;
use brainsort::memory::{DefaultAlloc, LimitedAlloc};
use brainsort::radix::{live_passes, make_plan, prefix_scalar, KeyFn, PextKeySoft};
use brainsort::record::{double_of, note_negative_zero, Key32, Key64, Rec32, Rec64, Record};
use brainsort::shape::{Part, Shape as KeyShape};
use brainsort::view::{alloc_array, pext_soft, Elem, NoHooks, RadixKey};
use std::cell::Cell;
use std::cmp::Ordering;

struct Rng(u64);

impl Rng {
    fn next(&mut self) -> u64 {
        self.0 = self.0.wrapping_add(0x9E37_79B9_7F4A_7C15);
        let mut z = self.0;
        z = (z ^ (z >> 30)).wrapping_mul(0xBF58_476D_1CE4_E5B9);
        z = (z ^ (z >> 27)).wrapping_mul(0x94D0_49BB_1331_11EB);
        z ^ (z >> 31)
    }

    fn below(&mut self, n: u64) -> u64 {
        self.next() % n
    }
}

// ---- natural runs --------------------------------------------------------------------------------

#[derive(Clone, Copy, Debug, PartialEq)]
struct Tagged {
    key: u32,
    id: u32,
}

fn tag(keys: impl IntoIterator<Item = u32>) -> Vec<Tagged> {
    keys.into_iter().enumerate().map(|(i, key)| Tagged { key, id: i as u32 }).collect()
}

/// Patterns made of runs, and unordered ones the pass must give up on.
fn pattern(name: &str, n: usize) -> Vec<Tagged> {
    let mut rng = Rng(n as u64);
    match name {
        "random" => tag((0..n).map(|_| rng.next() as u32)),
        "few_unique" => tag((0..n).map(|_| (rng.next() % 100) as u32)),
        "all_equal" => tag((0..n).map(|_| 7)),
        "runs" => tag((0..n).map(|i| ((i / 1500) as u32 * 7919 + (i % 1500) as u32 * 3) % 100_000)),
        "runs_with_ties" => tag((0..n).map(|i| ((i / 1500) as u32 * 7919 + (i % 1500) as u32 / 7) % 1000)),
        "organ" => tag((0..n).map(|i| (if i < n / 2 { i } else { n - i }) as u32)),
        "sawtooth" => tag((0..n).map(|i| (i % 1000) as u32)),
        "reversed" => tag((0..n).map(|i| (n - i) as u32)),
        "descending_pieces" => tag((0..n).map(|i| (i / 700) as u32 * 1000 + 700 - (i % 700) as u32)),
        "three_runs" => tag((0..n).map(|i| ((i % (n / 3 + 1)) * 2 + i / (n / 3 + 1)) as u32)),
        _ => unreachable!(),
    }
}

const RUN_PATTERNS: [&str; 7] = ["all_equal", "runs", "runs_with_ties", "organ", "sawtooth", "descending_pieces", "three_runs"];

fn is_permutation(v: &[Tagged]) -> bool {
    let mut ids: Vec<u32> = v.iter().map(|t| t.id).collect();
    ids.sort_unstable();
    ids.iter().enumerate().all(|(i, &id)| id == i as u32)
}

fn check(v: &[Tagged], n: usize, what: &str) {
    assert_eq!(v.len(), n, "{what}: length");
    assert!(is_permutation(v), "{what}: not a permutation");
    assert!(v.windows(2).all(|p| p[0].key < p[1].key || (p[0].key == p[1].key && p[0].id < p[1].id)), "{what}: not sorted stably");
}

fn merge(v: &mut [Tagged]) -> bool {
    merge_natural_runs(v, &ByLess(|a: &Tagged, b: &Tagged| a.key < b.key), &mut DefaultAlloc::new())
}

#[test]
fn merges_long_runs_stably_and_gives_up_on_short_ones() {
    for n in [RUNS_MIN, RUNS_MIN + 1, 1023, 4096, 20_000, 70_000] {
        for p in RUN_PATTERNS {
            let mut v = pattern(p, n);
            assert!(merge(&mut v), "{p} at {n}: made of runs");
            check(&v, n, &format!("{p} at {n}"));
        }
        for p in ["random", "few_unique"] {
            let mut v = pattern(p, n);
            assert!(!merge(&mut v), "{p} at {n}: no runs to merge");
            assert!(is_permutation(&v), "{p} at {n}: a permutation");
            v.sort_by_key(|a| a.key);
            check(&v, n, &format!("{p} at {n} after the pass"));
        }
    }
    let mut v = pattern("runs", RUNS_MIN - 1);
    assert!(!merge(&mut v), "below the minimum the pass is skipped");
    assert_eq!(v, pattern("runs", RUNS_MIN - 1));
    let n = 10_000;
    let mut v = pattern("reversed", n);
    assert!(merge(&mut v));
    check(&v, n, "reversed");
}

#[test]
fn a_comparator_that_is_not_an_order_gives_a_permutation() {
    for n in [600usize, 5000, 30_000] {
        for p in RUN_PATTERNS {
            for flavour in 0..3 {
                let mut v = pattern(p, n);
                let state = Cell::new(99u64);
                let calls = Cell::new(0usize);
                let less = |_: &Tagged, _: &Tagged| {
                    calls.set(calls.get() + 1);
                    match flavour {
                        0 => {
                            let mut r = Rng(state.get());
                            let x = r.next();
                            state.set(r.0);
                            x & 1 == 0
                        }
                        1 => true,
                        _ => calls.get() > 700,
                    }
                };
                let _ = merge_natural_runs(&mut v, &ByLess(less), &mut DefaultAlloc::new());
                assert!(is_permutation(&v), "{p} at {n}, flavour {flavour}: not a permutation");
            }
        }
    }
}

#[test]
fn the_run_pass_gives_up_before_its_array_is_full() {
    assert_eq!(max_runs(0), 33);
    assert_eq!(max_runs(320), 43);
    let mut v = pattern("random", 100_000);
    assert!(!merge(&mut v));
}

// ---- inferred keys -------------------------------------------------------------------------------

/// Eight bytes: a key and a number.
type Pair = [i32; 2];

fn lcg(seed: &mut u64) -> u64 {
    *seed = seed.wrapping_mul(6364136223846793005).wrapping_add(1442695040888963407);
    *seed >> 11
}

fn tagged(n: usize, modulus: u64) -> Vec<Pair> {
    let mut s = 99u64;
    (0..n).map(|i| [(lcg(&mut s) % modulus) as i32 - (modulus / 2) as i32, i as i32]).collect()
}

/// The result of the inferred sort equals the standard library's stable sort.
fn same_as_std<T: PlainBytes + PartialEq + std::fmt::Debug>(v: &[T], order: impl Fn(&T, &T) -> Ordering) {
    let mut a = v.to_vec();
    let mut b = v.to_vec();
    let sign = |x: &T, y: &T| match order(x, y) {
        Ordering::Less => -1i32,
        Ordering::Equal => 0,
        Ordering::Greater => 1,
    };
    let _ = sort_by_inferred_impl(&mut a, &BySign(sign), DefaultAlloc::new());
    b.sort_by(&order);
    assert_eq!(a, b);
}

#[test]
fn exact_key_with_ties_is_stable() {
    same_as_std(&tagged(20_000, 50), |a, b| a[0].cmp(&b[0]));
    same_as_std(&tagged(20_000, 1 << 31), |a, b| a[0].cmp(&b[0]));
}

#[test]
fn coarse_comparator_is_stable() {
    same_as_std(&tagged(20_000, 1 << 31), |a, b| (a[0] / 1000).cmp(&(b[0] / 1000)));
}

#[test]
fn descending_and_unsigned_and_floats() {
    same_as_std(&tagged(20_000, 1 << 31), |a, b| b[0].cmp(&a[0]));
    let mut s = 5u64;
    let u: Vec<u64> = (0..20_000).map(|_| lcg(&mut s) << 20).collect();
    same_as_std(&u, |a, b| a.cmp(b));
    let f: Vec<F64Bits> = (0..20_000).map(|_| F64Bits(((lcg(&mut s) as f64 / (1u64 << 53) as f64 - 0.5) * 1e6).to_bits())).collect();
    same_as_std(&f, |a, b| f64::from_bits(a.0).total_cmp(&f64::from_bits(b.0)));
    same_as_std(&f, |a, b| f64::from_bits(b.0).partial_cmp(&f64::from_bits(a.0)).unwrap());
}

#[test]
fn a_disagreeing_comparator_falls_back_correctly() {
    let mut v = tagged(20_000, 1 << 31);
    v[10_000][0] = 12_345;
    let special = |k: i32| if k == 12_345 { i32::MAX } else { k };
    same_as_std(&v, |a, b| special(a[0]).cmp(&special(b[0])));
}

#[test]
fn small_and_ordered_inputs() {
    same_as_std(&tagged(10, 1 << 31), |a, b| a[0].cmp(&b[0]));
    let mut sorted = tagged(5_000, 1 << 31);
    sorted.sort_by_key(|t| t[0]);
    same_as_std(&sorted, |a, b| a[0].cmp(&b[0]));
    sorted.reverse();
    same_as_std(&sorted, |a, b| a[0].cmp(&b[0]));
}

// ---- digits --------------------------------------------------------------------------------------

#[test]
fn plan_splits_evenly() {
    let p = make_plan(32, 11);
    assert_eq!(p.passes, 3);
    assert_eq!(&p.bits[..3], &[11, 11, 10]);
    assert_eq!(&p.shift[..3], &[0, 11, 22]);
    let p = make_plan(20, 11);
    assert_eq!(&p.bits[..2], &[10, 10]);
    assert_eq!(make_plan(0, 11).passes, 0);
}

fn naive_prefix(v: &[u32]) -> Vec<u32> {
    let mut out = v.to_vec();
    let mut sum = 0u32;
    for x in out.iter_mut() {
        let c = *x;
        *x = sum;
        sum = sum.wrapping_add(c);
    }
    out
}

#[test]
fn prefix_matches_naive() {
    let mut h: Vec<u32> = (0..256).map(|i| (i * 7 % 13) as u32).collect();
    let naive = naive_prefix(&h);
    let n = h.len();
    prefix_scalar(&mut h, n);
    assert_eq!(h, naive);
}

#[test]
fn prefix_sums_match_scalar() {
    let mut rng = Rng(2);
    for n in [16usize, 32, 256, 1024, 8192] {
        let v: Vec<u32> = (0..n).map(|_| rng.next() as u32).collect();
        let mut b = v.clone();
        prefix_scalar(&mut b, n);
        assert_eq!(naive_prefix(&v), b, "prefix sums of {n}");
    }
}

#[test]
fn pext_soft_compresses() {
    assert_eq!(pext_soft(0b1011_0110u32, 0b1111_0000), 0b1011);
    assert_eq!(pext_soft(0xF0F0u64, 0xFF00), 0xF0);
}

#[test]
fn live_passes_skips_constant_digits() {
    let plan = make_plan(32, 11);
    let mut order = [0usize; 8];
    assert_eq!(live_passes(&plan, 0x0000_0FFF, &mut order), 2);
    assert_eq!(&order[..2], &[0, 1]);
    assert_eq!(live_passes(&plan, 0, &mut order), 0);
}

/// The bits of `k` that `m` selects, bit by bit.
fn selected(k: u64, m: u64) -> u64 {
    let (mut out, mut at) = (0u64, 0);
    for b in 0..64 {
        if m >> b & 1 == 1 {
            out |= (k >> b & 1) << at;
            at += 1;
        }
    }
    out
}

#[test]
fn pext_matches_soft() {
    let mut rng = Rng(3);
    for _ in 0..10_000 {
        let (k, m) = (rng.next(), rng.next() & rng.next());
        let soft = <PextKeySoft as KeyFn<Key64>>::raw(&PextKeySoft { chunk: 0, mask: m }, k);
        assert_eq!(selected(k, m), soft, "pext64 of {k:#x} by {m:#x}");
        let (k, m) = (k as u32 as u64, m as u32 as u64);
        let soft = <PextKeySoft as KeyFn<Key32>>::raw(&PextKeySoft { chunk: 0, mask: m }, k);
        assert_eq!(selected(k, m), soft, "pext32 of {k:#x} by {m:#x}");
    }
}

// ---- elements ------------------------------------------------------------------------------------

/// The element types, from a random key: a few distinct values or the full range.
trait Gen: Elem + PartialEq + std::fmt::Debug {
    fn make(rng: &mut Rng, small: bool) -> Self;
    fn zero() -> Self;
}

fn key_bits(rng: &mut Rng, small: bool) -> u64 {
    if small {
        rng.below(4) * 1_000_003
    } else {
        rng.next()
    }
}

impl Gen for Rec32 {
    fn make(rng: &mut Rng, small: bool) -> Self {
        Rec32 { key: key_bits(rng, small) as i32, idx: rng.next() as u32 }
    }

    fn zero() -> Self {
        Rec32 { key: 0, idx: 0 }
    }
}

impl Gen for Rec64 {
    fn make(rng: &mut Rng, small: bool) -> Self {
        Rec64 { key: key_bits(rng, small) as i64, idx: rng.next() as u32, pad: 0 }
    }

    fn zero() -> Self {
        Rec64 { key: 0, idx: 0, pad: 0 }
    }
}

impl Gen for Key64 {
    fn make(rng: &mut Rng, small: bool) -> Self {
        Key64 { key: key_bits(rng, small) as i64 }
    }

    fn zero() -> Self {
        Key64 { key: 0 }
    }
}

impl Gen for Key32 {
    fn make(rng: &mut Rng, small: bool) -> Self {
        Key32 { key: key_bits(rng, small) as i32 }
    }

    fn zero() -> Self {
        Key32 { key: 0 }
    }
}

fn elems<T: Gen>(rng: &mut Rng, n: usize, small: bool) -> Vec<T> {
    (0..n).map(|_| T::make(rng, small)).collect()
}

fn raw<T: Gen>(e: T) -> u64 {
    T::radix_key(e, 0).to_u64()
}

/// Every tail, then a few sizes past the commit block.
fn sizes() -> Vec<usize> {
    let mut s: Vec<usize> = (1..=200).collect();
    s.extend([1023, 1024, 1025, 1500, 2049, 4096, 4111]);
    s
}

fn check_reverse<T: Copy + PartialEq + std::fmt::Debug>(make: impl Fn(u64) -> T) {
    let mut rng = Rng(1);
    for n in (0..=100).chain([1000, 1001, 4097]) {
        let v: Vec<T> = (0..n).map(|_| make(rng.next())).collect();
        let mut a = v.clone();
        let mut b = v.clone();
        reverse_all(&mut a, &mut NoHooks);
        b.reverse();
        assert_eq!(a, b, "reverse of {n} elements");
    }
}

#[test]
fn reverse_matches_scalar() {
    check_reverse(|x| x as u32);
    check_reverse(|x| x);
    check_reverse(|x| (x as u128) << 64 | x.rotate_left(17) as u128);
}

/// What a split leaves where the buffer is too small: some prefix of the input
/// stably partitioned and the rest untouched.
fn partial_partition<T: Gen>(input: &[T], out: &[T], ge: impl Fn(&T) -> bool) -> bool {
    let n = input.len();
    let mut l = 0;
    while l < n && out[n - 1 - l] == input[n - 1 - l] {
        l += 1;
    }
    let s = n - l;
    let mut expect: Vec<T> = input[..s].iter().copied().filter(|e| !ge(e)).collect();
    expect.extend(input[..s].iter().copied().filter(|e| ge(e)));
    out[..s] == expect
}

fn varying<T: Gen>(v: &[T]) -> u64 {
    v.iter().fold(0, |m, &e| m | (raw(e) ^ raw(v[0])))
}

fn check_split_forward<T: Gen>() {
    let mut rng = Rng(4);
    for n in sizes() {
        for small in [false, true] {
            for cap in [n / 4, n / 2 + 1, n] {
                let v: Vec<T> = elems(&mut rng, n, small);
                let pivot = v[rng.below(n as u64) as usize];
                let mut a = v.clone();
                let mut b = v.clone();
                let mut ba: Vec<T> = vec![T::zero(); cap];
                let mut bb: Vec<T> = vec![T::zero(); cap];
                let ra = split_forward(&mut a, &mut ba, pivot, 0, &mut NoHooks);
                let rb = split_forward_scalar(&mut b, &mut bb, raw(pivot), 0, &mut NoHooks);
                let what = format!("split_forward of {n} elements, cap {cap}, small {small}");
                assert_eq!(ra.fits, rb.fits, "{what}: result");
                let kept: Vec<T> = v.iter().copied().filter(|&e| raw(e) < raw(pivot)).collect();
                let moved: Vec<T> = v.iter().copied().filter(|&e| raw(e) >= raw(pivot)).collect();
                assert_eq!(ra.fits, moved.len() <= cap, "{what}: fits");
                if ra.fits {
                    assert_eq!(ra.mask, rb.mask, "{what}: mask");
                    assert_eq!(ra.mask, varying(&v), "{what}: varying bits");
                    assert_eq!(ra.n_ge, rb.n_ge, "{what}: n_ge");
                    assert_eq!(a[..n - ra.n_ge], b[..n - rb.n_ge], "{what}: kept side");
                    assert_eq!(ba[..ra.n_ge], bb[..rb.n_ge], "{what}: buffered side");
                    assert_eq!(a[..n - ra.n_ge], kept[..], "{what}: kept elements");
                    assert_eq!(ba[..ra.n_ge], moved[..], "{what}: buffered elements");
                } else {
                    assert!(partial_partition(&v, &a, |e| raw(*e) >= raw(pivot)), "{what}: the partial partition");
                    assert!(partial_partition(&v, &b, |e| raw(*e) >= raw(pivot)), "{what}: the scalar partial partition");
                }
            }
        }
    }
}

#[test]
fn split_forward_matches_scalar() {
    check_split_forward::<Rec32>();
    check_split_forward::<Rec64>();
    check_split_forward::<Key64>();
    check_split_forward::<Key32>();
}

/// Four distinct keys in order.
fn sampled<T: Gen>(v: &[T]) -> Option<[u64; 4]> {
    let mut keys: Vec<u64> = v.iter().map(|&e| raw(e)).collect();
    keys.sort_unstable();
    keys.dedup();
    if keys.len() < 4 {
        return None;
    }
    Some([keys[0], keys[1], keys[2], keys[3]])
}

fn check_split2<T: Gen>() {
    let mut rng = Rng(5);
    for n in sizes() {
        for unknown in [false, true] {
            for cap in [n / 4, n / 2 + 1, n] {
                let mut v: Vec<T> = elems(&mut rng, n, true);
                if unknown {
                    let i = rng.below(n as u64) as usize;
                    v[i] = T::make(&mut rng, false);
                }
                let Some(vk) = sampled(&v) else { continue };
                let (t1, t2, t3) = (vk[1], vk[2], vk[3]);
                let mut a = v.clone();
                let mut ba: Vec<T> = vec![T::zero(); cap];
                let r = split2_scalar(&mut a, &mut ba, 0, &vk, t1, t2, t3, &mut NoHooks);
                let what = format!("split2 of {n} elements, cap {cap}, unknown {unknown}");
                let kept: Vec<T> = v.iter().copied().filter(|&e| raw(e) < t2).collect();
                let moved: Vec<T> = v.iter().copied().filter(|&e| raw(e) >= t2).collect();
                assert_eq!(r.fits, moved.len() <= cap, "{what}: result");
                if r.fits {
                    assert_eq!(r.mask, varying(&v), "{what}: mask");
                    assert_eq!(r.known, v.iter().all(|&e| vk.contains(&raw(e))), "{what}: known");
                    let low = v.iter().filter(|&&e| raw(e) < t1).count();
                    let high = v.iter().filter(|&&e| t2 <= raw(e) && raw(e) < t3).count();
                    assert_eq!((r.c0_lt, r.c0_ge, r.n_ge), (low, high, moved.len()), "{what}: counts");
                    assert_eq!(a[..n - r.n_ge], kept[..], "{what}: kept side");
                    assert_eq!(ba[..r.n_ge], moved[..], "{what}: buffered side");
                } else {
                    assert!(partial_partition(&v, &a, |e| raw(*e) >= t2), "{what}: the partial partition");
                }
            }
        }
    }
}

#[test]
fn split2_matches_scalar() {
    check_split2::<Rec32>();
    check_split2::<Key64>();
    check_split2::<Key32>();
}

fn check_partition2<T: Gen>() {
    let mut rng = Rng(6);
    for m in sizes() {
        let v: Vec<T> = elems(&mut rng, m, true);
        let Some(vk) = sampled(&v) else { continue };
        for t in [vk[1], vk[2]] {
            let lower: Vec<T> = v.iter().copied().filter(|&e| raw(e) < t).collect();
            let upper: Vec<T> = v.iter().copied().filter(|&e| raw(e) >= t).collect();
            let o0 = rng.below(8) as usize;
            let (o1, end1) = (o0 + lower.len(), o0 + m);
            let mut d: Vec<T> = vec![T::zero(); end1];
            partition2_scalar(&v, &mut d, o0, o1, 0, t, &mut NoHooks);
            assert_eq!(d[o0..o1], lower[..], "partition2 of {m} elements at {o0}: lower part");
            assert_eq!(d[o1..], upper[..], "partition2 of {m} elements at {o0}: upper part");
            assert!(d[..o0].iter().all(|e| *e == T::zero()));
        }
    }
}

#[test]
fn partition2_matches_scalar() {
    check_partition2::<Rec32>();
    check_partition2::<Key64>();
    check_partition2::<Key32>();
}

// ---- the scout -----------------------------------------------------------------------------------

fn same_scout(a: &ScoutResult, b: &ScoutResult, what: &str) {
    assert_eq!((a.mask, a.has_mask, a.committed), (b.mask, b.has_mask, b.committed), "{what}: mask and flags");
    assert_eq!((a.descents, a.ascents), (b.descents, b.ascents), "{what}: counts");
    assert_eq!((a.runs, a.tracking, a.cur_dir), (b.runs, b.tracking, b.cur_dir), "{what}: runs");
    if a.tracking {
        assert_eq!(a.bound[..=a.runs], b.bound[..=b.runs], "{what}: run bounds");
        assert_eq!(a.dir[..a.runs], b.dir[..b.runs], "{what}: run directions");
    }
}

/// Whether the commit rule held on some prefix.
fn could_commit<T: Gen>(v: &[T]) -> bool {
    (COMMIT_BLOCK + 1..=v.len()).any(|i| {
        let r = scout_scalar(&v[..i], 0, &mut NoHooks);
        r.committed || commit_now(&r, i)
    })
}

fn check_scout<T: Gen>() {
    let mut rng = Rng(7);
    for n in sizes() {
        for shape in 0..4 {
            let mut v: Vec<T> = elems(&mut rng, n, shape == 1);
            match shape {
                2 => {
                    v.sort_by_key(|&e| raw(e));
                    for _ in 0..n / 64 + 1 {
                        let (i, j) = (rng.below(n as u64) as usize, rng.below(n as u64) as usize);
                        v.swap(i, j);
                    }
                }
                3 => {
                    v.sort_by_key(|&e| raw(e));
                    let cut = rng.below(n as u64) as usize;
                    v[cut..].reverse();
                }
                _ => {}
            }
            let what = format!("scout of {n} elements, shape {shape}");
            let a = scout(&v, 0, &mut NoHooks);
            let b = scout_scalar(&v, 0, &mut NoHooks);
            same_scout(&a, &b, &what);
            if a.committed {
                assert!(could_commit(&v), "{what}: committed where the rule never held");
            } else {
                let descents = v.windows(2).filter(|p| raw(p[1]) < raw(p[0])).count();
                let ascents = v.windows(2).filter(|p| raw(p[1]) > raw(p[0])).count();
                assert_eq!((a.descents, a.ascents), (descents, ascents), "{what}: all pairs");
                assert_eq!(a.mask, varying(&v), "{what}: varying bits");
                assert_eq!(compute_mask(&v, 0, &mut NoHooks), varying(&v), "{what}: the mask on its own");
            }
        }
    }
}

#[test]
fn scout_matches_scalar() {
    check_scout::<Rec32>();
    check_scout::<Rec64>();
    check_scout::<Key64>();
    check_scout::<Key32>();
}

// ---- the prescan ---------------------------------------------------------------------------------

/// The natural order of a number, and whether it is one.
trait Nat: Plain + Copy {
    fn order(a: Self, b: Self) -> Ordering;
    fn nan(self) -> bool;
    fn of(x: u64) -> Self;
}

impl Nat for i32 {
    fn order(a: Self, b: Self) -> Ordering {
        a.cmp(&b)
    }

    fn nan(self) -> bool {
        false
    }

    fn of(x: u64) -> Self {
        x as i32
    }
}

impl Nat for u32 {
    fn order(a: Self, b: Self) -> Ordering {
        a.cmp(&b)
    }

    fn nan(self) -> bool {
        false
    }

    fn of(x: u64) -> Self {
        x as u32
    }
}

impl Nat for i64 {
    fn order(a: Self, b: Self) -> Ordering {
        a.cmp(&b)
    }

    fn nan(self) -> bool {
        false
    }

    fn of(x: u64) -> Self {
        x as i64
    }
}

impl Nat for u64 {
    fn order(a: Self, b: Self) -> Ordering {
        a.cmp(&b)
    }

    fn nan(self) -> bool {
        false
    }

    fn of(x: u64) -> Self {
        x
    }
}

impl Nat for F32Bits {
    fn order(a: Self, b: Self) -> Ordering {
        f32::from_bits(a.0).partial_cmp(&f32::from_bits(b.0)).unwrap_or(Ordering::Equal)
    }

    fn nan(self) -> bool {
        f32::from_bits(self.0).is_nan()
    }

    fn of(x: u64) -> Self {
        F32Bits(x as u32)
    }
}

impl Nat for F64Bits {
    fn order(a: Self, b: Self) -> Ordering {
        f64::from_bits(a.0).partial_cmp(&f64::from_bits(b.0)).unwrap_or(Ordering::Equal)
    }

    fn nan(self) -> bool {
        f64::from_bits(self.0).is_nan()
    }

    fn of(x: u64) -> Self {
        F64Bits(x)
    }
}

fn check_prescan<T: Nat>() {
    let mut rng = Rng(8);
    for n in sizes().into_iter().filter(|&n| n >= 2) {
        for shape in 0..4 {
            let mut v: Vec<T> = (0..n).map(|_| T::of(if shape == 1 { rng.below(4) * 0x0010_0010_0010_0010 } else { rng.next() })).collect();
            if shape >= 2 {
                for x in v.iter_mut() {
                    if x.nan() {
                        *x = T::of(0);
                    }
                }
                v.sort_by(|&a, &b| T::order(a, b));
                if shape == 2 {
                    for _ in 0..n / 64 + 1 {
                        let (i, j) = (rng.below(n as u64) as usize, rng.below(n as u64) as usize);
                        v.swap(i, j);
                    }
                } else {
                    v.reverse();
                }
            }
            let what = format!("prescan of {n} elements, shape {shape}");
            let r = prescan_plain(&v);
            if v.iter().any(|&x| x.nan()) {
                assert_eq!(r.shape, Shape::Unordered, "{what}: NaN");
                continue;
            }
            let (mut desc, mut asc, mut could_stop) = (0usize, 0usize, false);
            for i in 1..n {
                match T::order(v[i - 1], v[i]) {
                    Ordering::Greater => desc += 1,
                    Ordering::Less => asc += 1,
                    _ => {}
                }
                could_stop |= i + 1 >= 256 && asc > 0 && desc > ((i + 1) >> 3) + 64;
            }
            match r.shape {
                Shape::Sorted => assert_eq!(desc, 0, "{what}: sorted"),
                Shape::Reversed => assert!(desc > 0 && asc == 0, "{what}: reversed"),
                Shape::NearlySorted => assert!(
                    desc > 0 && asc > 0 && desc <= n / 16 && (r.descents, r.ascents) == (desc, asc),
                    "{what}: nearly sorted, {} {} vs {desc} {asc}",
                    r.descents,
                    r.ascents
                ),
                Shape::Unordered => assert!(desc > n / 16 || could_stop, "{what}: unordered with {desc} descents and {asc} ascents"),
            }
            if r.shape != Shape::Unordered {
                assert_eq!((r.descents, r.ascents), (desc, asc), "{what}: counts");
            }
        }
    }
}

#[test]
fn prescan_matches_reference() {
    check_prescan::<i32>();
    check_prescan::<u32>();
    check_prescan::<i64>();
    check_prescan::<u64>();
    check_prescan::<F32Bits>();
    check_prescan::<F64Bits>();
}

#[test]
fn a_double_is_given_back_from_its_record() {
    for d in [0.0f64, -0.0, 1.5, -1.5, f64::INFINITY, f64::NEG_INFINITY, f64::MIN_POSITIVE, -f64::MAX] {
        let bits = d.to_bits();
        let mut r: Rec64 = Record::build(&F64Bits(bits), 7).unwrap();
        note_negative_zero(&mut r, bits);
        assert_eq!(r.pad, (bits == 1 << 63) as u32);
        assert_eq!(double_of(&r), bits, "{d}");
    }
}

#[test]
fn shapes_say_what_they_hold() {
    assert!(<(u8, i64) as Key>::shape().is_valid());
    assert!(!<(u8, i64) as Key>::shape().has_bytes());
    assert!(<(u8, String) as Key>::shape().has_bytes());
    let mut s: Scratch<Rec32, DefaultAlloc, NoHooks> = Scratch::new(DefaultAlloc::new(), NoHooks, Machine::default());
    assert!(s.buffer().is_empty());
    assert!(s.ensure(Record::build(&1u32, 0).unwrap(), 5).is_ok());
    assert_eq!((s.buffer().len(), s.capacity()), (5, 5));
}

// ---- plans, pivots and memory --------------------------------------------------------------------

#[test]
fn digits_are_balanced() {
    assert_eq!(digit_width(32, 1 << 20, 13), 11);
    assert_eq!(digit_width(8, 1 << 20, 13), 8);
    assert_eq!(digit_width(64, 1 << 20, 16), 16);
    assert_eq!(digit_width(13, 100, 13), 7);
}

#[test]
fn the_plan_with_the_fewest_passes_is_chosen() {
    let p = choose_plan::<u32>(0xFF00, true, false, 0, 0, 1000, 16, 0, true);
    assert!(matches!(p.kind, PlanKind::Shift) && p.exact);
    assert_eq!((p.bits, p.low, p.width, p.passes()), (8, 8, 8, 1));
    let p = choose_plan::<u32>(0x8000_0001, true, false, 0, 0, 1000, 16, 0, true);
    assert!(matches!(p.kind, PlanKind::Pext));
    assert_eq!((p.bits, p.pmask, p.passes()), (2, 0x8000_0001, 1));
    let p = choose_plan::<u32>(0x8000_0001, true, false, 0, 0, 1000, 16, 0, false);
    assert!(matches!(p.kind, PlanKind::Full));
    assert_eq!((p.bits, p.width, p.passes()), (32, 8, 4));
    let p = choose_plan::<u32>(u32::MAX as u64, false, true, 1000, 1010, 1000, 16, 0, true);
    assert!(matches!(p.kind, PlanKind::Sub) && !p.exact);
    assert_eq!((p.bits, p.base, p.passes()), (5, 990, 1));
    assert_eq!(choose_plan::<u64>(0, true, false, 0, 0, 1000, 16, 0, true).bits, 0);
}

#[test]
fn a_pivot_of_as_few_as_thirty_two() {
    let items: Vec<Item> = (0..32).map(|i| Item { key: i, id: i as u32 }).collect();
    let (p, info) = pick_pivot(&items, 0, &mut NoHooks);
    assert_eq!(p.key, 16);
    assert_eq!((info.n_sample, info.n_ge, info.all_equal, info.n_distinct), (1, 1, true, 0));
    let items: Vec<Item> = (0..4096).map(|i| Item { key: i % 3, id: i as u32 }).collect();
    let (p, info) = pick_pivot(&items, 0, &mut NoHooks);
    assert_eq!((p.key, info.n_sample, info.n_distinct, info.dict), (1, 128, 3, true));
    assert_eq!(info.few[..3], [0x8000_0000, 0x8000_0001, 0x8000_0002]);
}

#[test]
fn two_keys_are_parted_where_the_buffer_holds_them() {
    let keys = |low: usize, high: usize| -> Vec<Item> { (0..low + high).map(|i| Item { key: (i >= high) as i32 * -1 + 1, id: i as u32 }).collect() };
    let of = |k: i32| Item::radix_key(Item { key: k, id: 0 }, 0).to_u64();
    let info = Pivot { n_sample: 31, n_distinct: 2, few: [of(0), of(1), 0, 0], few_cnt: [1, 30, 0, 0], smin: of(0), smax: of(1), ..Pivot::default() };
    let mut items = keys(600, 400);
    let mut s: Scratch<Item, DefaultAlloc, NoHooks> = Scratch::new(DefaultAlloc::new(), NoHooks, Machine::default());
    assert_eq!(partition_sort_few(&mut items, &mut s, 0, &info, true, 0), Ok(true));
    assert!(items.windows(2).all(|w| (w[0].key, w[0].id) < (w[1].key, w[1].id)));
    let mut items = keys(100, 900);
    let mut s: Scratch<Item, DefaultAlloc, NoHooks> = Scratch::new(DefaultAlloc::new(), NoHooks, Machine::default());
    assert_eq!(partition_sort_few(&mut items, &mut s, 0, &info, true, 0), Ok(false));
    let mut ids: Vec<u32> = items.iter().map(|x| x.id).collect();
    ids.sort();
    assert_eq!(ids, (0..1000).collect::<Vec<u32>>());
}

#[test]
fn arrays_that_cannot_be_asked_for() {
    let mut mem = LimitedAlloc::new(usize::MAX, 5);
    assert!(alloc_array::<u64, LimitedAlloc>(&mut mem, usize::MAX).is_err());
    assert_eq!(mem.grants, 5);
    assert_eq!(alloc_array::<u64, LimitedAlloc>(&mut mem, 3).map(|v| v.len()), Ok(0));
    assert_eq!(mem.grants, 4);
    let mut mem = LimitedAlloc::new(23, 5);
    assert!(alloc_array::<u64, LimitedAlloc>(&mut mem, 3).is_err());
}

#[test]
fn a_shape_turned_twice() {
    let s = KeyShape::concat(&KeyShape::bytes(), &KeyShape::bytes().reversed());
    let t = s.reversed();
    assert_eq!(t.n, 2);
    assert!(t.parts[0].desc && !t.parts[1].desc && !t.parts[2].desc);
    let twice = t.reversed();
    assert_eq!((twice.n, twice.parts.map(|p| p.desc)), (s.n, s.parts.map(|p| p.desc)));
    let many = KeyShape { parts: [Part::default(); 32], n: 33 };
    assert!(many.reversed().n == 33 && many.reversed().parts.iter().all(|p| p.desc));
}
