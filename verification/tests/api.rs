//! The sorts of the public interface: every key type on ten input patterns at many
//! sizes; every result is checked for order, stability and being a permutation of
//! the input. Then the same with each of a run's requests for memory refused.
use brainsort::api::{sort_by_impl, sort_by_key_impl};
use brainsort::compare::BySign;
use brainsort::key::compose::Desc;
use brainsort::key::number::{F32Bits, F64Bits};
use brainsort::key::Key;
use brainsort::memory::{release_memory, set_memory_cache_limit, Cache, FailingAlloc};
use brainsort::project::{ByRef, Identity};
use brainsort::{sort, sort_by, sort_by_inferred, sort_by_key, sort_by_key_ref};
use std::cmp::Ordering;
use std::marker::PhantomData;
use std::sync::Arc;

/// A small deterministic generator.
struct Rng(u64);

impl Rng {
    fn new(seed: u64) -> Self {
        Rng(seed.wrapping_add(0x9E37_79B9_7F4A_7C15))
    }

    fn next(&mut self) -> u64 {
        self.0 = self.0.wrapping_add(0x9E37_79B9_7F4A_7C15);
        let mut z = self.0;
        z = (z ^ (z >> 30)).wrapping_mul(0xBF58_476D_1CE4_E5B9);
        z = (z ^ (z >> 27)).wrapping_mul(0x94D0_49BB_1331_11EB);
        z ^ (z >> 31)
    }
}

/// The natural order of a key type, written independently of the library, and
/// identity.
trait Natural {
    fn natural(&self, other: &Self) -> Ordering;

    fn identical(&self, other: &Self) -> bool {
        self.natural(other) == Ordering::Equal
    }
}

impl Natural for i8 {
    fn natural(&self, o: &Self) -> Ordering {
        self.cmp(o)
    }
}

impl Natural for u8 {
    fn natural(&self, o: &Self) -> Ordering {
        self.cmp(o)
    }
}

impl Natural for i16 {
    fn natural(&self, o: &Self) -> Ordering {
        self.cmp(o)
    }
}

impl Natural for u16 {
    fn natural(&self, o: &Self) -> Ordering {
        self.cmp(o)
    }
}

impl Natural for i32 {
    fn natural(&self, o: &Self) -> Ordering {
        self.cmp(o)
    }
}

impl Natural for u32 {
    fn natural(&self, o: &Self) -> Ordering {
        self.cmp(o)
    }
}

impl Natural for i64 {
    fn natural(&self, o: &Self) -> Ordering {
        self.cmp(o)
    }
}

impl Natural for u64 {
    fn natural(&self, o: &Self) -> Ordering {
        self.cmp(o)
    }
}

impl Natural for usize {
    fn natural(&self, o: &Self) -> Ordering {
        self.cmp(o)
    }
}

impl Natural for isize {
    fn natural(&self, o: &Self) -> Ordering {
        self.cmp(o)
    }
}

impl Natural for i128 {
    fn natural(&self, o: &Self) -> Ordering {
        self.cmp(o)
    }
}

impl Natural for u128 {
    fn natural(&self, o: &Self) -> Ordering {
        self.cmp(o)
    }
}

impl Natural for bool {
    fn natural(&self, o: &Self) -> Ordering {
        self.cmp(o)
    }
}

impl Natural for char {
    fn natural(&self, o: &Self) -> Ordering {
        self.cmp(o)
    }
}

impl Natural for String {
    fn natural(&self, o: &Self) -> Ordering {
        self.cmp(o)
    }
}

impl Natural for &'static str {
    fn natural(&self, o: &Self) -> Ordering {
        self.cmp(o)
    }
}

impl Natural for Vec<u8> {
    fn natural(&self, o: &Self) -> Ordering {
        self.cmp(o)
    }
}

impl Natural for Box<str> {
    fn natural(&self, o: &Self) -> Ordering {
        self.cmp(o)
    }
}

impl Natural for std::borrow::Cow<'static, str> {
    fn natural(&self, o: &Self) -> Ordering {
        self.cmp(o)
    }
}

impl Natural for Arc<str> {
    fn natural(&self, o: &Self) -> Ordering {
        self.cmp(o)
    }
}

/// The class of a number and its place in it: NaN with the sign, minus infinity,
/// the negative numbers, the zeros, the positive numbers, infinity, NaN.
fn float_rank(x: f64) -> (i32, u64) {
    let sign = 0x8000_0000_0000_0000u64;
    if x.is_nan() {
        let payload = x.to_bits() & !sign;
        return if x.is_sign_negative() { (0, u64::MAX - payload) } else { (6, payload) };
    }
    if x.is_infinite() {
        return if x < 0.0 { (1, 0) } else { (5, 0) };
    }
    if x == 0.0 {
        return (3, 0);
    }
    if x < 0.0 {
        (2, u64::MAX - (x.to_bits() & !sign))
    } else {
        (4, x.to_bits())
    }
}

fn widened(f: f32) -> f64 {
    if f.is_nan() {
        let sign = 0x8000_0000u32;
        let bits = f.to_bits();
        f64::from_bits(
            0x7FF8_0000_0000_0000 | ((bits & !sign & 0x3F_FFFF) as u64) | if bits & sign != 0 { 0x8000_0000_0000_0000 } else { 0 },
        )
    } else {
        f as f64
    }
}

impl Natural for F64Bits {
    fn natural(&self, o: &Self) -> Ordering {
        float_rank(f64::from_bits(self.0)).cmp(&float_rank(f64::from_bits(o.0)))
    }

    fn identical(&self, o: &Self) -> bool {
        self.0 == o.0
    }
}

impl Natural for F32Bits {
    fn natural(&self, o: &Self) -> Ordering {
        float_rank(widened(f32::from_bits(self.0))).cmp(&float_rank(widened(f32::from_bits(o.0))))
    }

    fn identical(&self, o: &Self) -> bool {
        self.0 == o.0
    }
}

impl<K: Natural> Natural for Desc<K> {
    fn natural(&self, o: &Self) -> Ordering {
        o.0.natural(&self.0)
    }
}

impl<A: Natural> Natural for (A,) {
    fn natural(&self, o: &Self) -> Ordering {
        self.0.natural(&o.0)
    }
}

impl<A: Natural, B: Natural> Natural for (A, B) {
    fn natural(&self, o: &Self) -> Ordering {
        self.0.natural(&o.0).then_with(|| self.1.natural(&o.1))
    }
}

impl<A: Natural, B: Natural, C: Natural> Natural for (A, B, C) {
    fn natural(&self, o: &Self) -> Ordering {
        self.0.natural(&o.0).then_with(|| self.1.natural(&o.1)).then_with(|| self.2.natural(&o.2))
    }
}

impl<K: Natural, const N: usize> Natural for [K; N] {
    fn natural(&self, o: &Self) -> Ordering {
        for i in 0..N {
            let c = self[i].natural(&o[i]);
            if c != Ordering::Equal {
                return c;
            }
        }
        Ordering::Equal
    }
}

// ---- keys of the caller --------------------------------------------------------------------------

#[derive(Clone, Copy, Debug, PartialEq, Eq)]
enum Color {
    Red,
    Green,
    Blue,
    Black,
}

impl Color {
    fn number(self) -> i8 {
        match self {
            Color::Red => -3,
            Color::Green => 0,
            Color::Blue => 5,
            Color::Black => 100,
        }
    }
}

impl Natural for Color {
    fn natural(&self, o: &Self) -> Ordering {
        self.number().cmp(&o.number())
    }
}

#[derive(Clone, Copy, Debug, PartialEq, Eq, PartialOrd, Ord)]
struct UserFixed {
    major: u16,
    minor: u16,
}

impl Natural for UserFixed {
    fn natural(&self, o: &Self) -> Ordering {
        self.cmp(o)
    }
}

#[derive(Clone, Debug, PartialEq, Eq, PartialOrd, Ord)]
struct UserBytes {
    tag: String,
}

impl Natural for UserBytes {
    fn natural(&self, o: &Self) -> Ordering {
        self.tag.cmp(&o.tag)
    }
}

// ---- inputs --------------------------------------------------------------------------------------

fn leak(s: String) -> &'static str {
    Box::leak(s.into_boxed_str())
}

fn padded(v: i64) -> String {
    format!("{:020}", v + (1i64 << 62))
}

fn word(rng: &mut Rng) -> String {
    let len = 3 + rng.next() as usize % 10;
    (0..len).map(|_| (b'a' + (rng.next() % 26) as u8) as char).collect()
}

/// `make` gives a key that is monotone in its argument, `random` any key.
trait Gen: Sized {
    fn make(v: i64, rng: &mut Rng) -> Self;
    fn random(rng: &mut Rng) -> Self;
}

impl Gen for i8 {
    fn make(v: i64, _: &mut Rng) -> Self {
        v as i8
    }

    fn random(rng: &mut Rng) -> Self {
        rng.next() as i8
    }
}

impl Gen for u8 {
    fn make(v: i64, _: &mut Rng) -> Self {
        v as u8
    }

    fn random(rng: &mut Rng) -> Self {
        rng.next() as u8
    }
}

impl Gen for i16 {
    fn make(v: i64, _: &mut Rng) -> Self {
        v as i16
    }

    fn random(rng: &mut Rng) -> Self {
        rng.next() as i16
    }
}

impl Gen for u16 {
    fn make(v: i64, _: &mut Rng) -> Self {
        v as u16
    }

    fn random(rng: &mut Rng) -> Self {
        rng.next() as u16
    }
}

impl Gen for i32 {
    fn make(v: i64, _: &mut Rng) -> Self {
        v as i32
    }

    fn random(rng: &mut Rng) -> Self {
        rng.next() as i32
    }
}

impl Gen for u32 {
    fn make(v: i64, _: &mut Rng) -> Self {
        v as u32
    }

    fn random(rng: &mut Rng) -> Self {
        rng.next() as u32
    }
}

impl Gen for i64 {
    fn make(v: i64, _: &mut Rng) -> Self {
        v as i64
    }

    fn random(rng: &mut Rng) -> Self {
        rng.next() as i64
    }
}

impl Gen for u64 {
    fn make(v: i64, _: &mut Rng) -> Self {
        v as u64
    }

    fn random(rng: &mut Rng) -> Self {
        rng.next() as u64
    }
}

impl Gen for usize {
    fn make(v: i64, _: &mut Rng) -> Self {
        v as usize
    }

    fn random(rng: &mut Rng) -> Self {
        rng.next() as usize
    }
}

impl Gen for isize {
    fn make(v: i64, _: &mut Rng) -> Self {
        v as isize
    }

    fn random(rng: &mut Rng) -> Self {
        rng.next() as isize
    }
}

impl Gen for i128 {
    fn make(v: i64, _: &mut Rng) -> Self {
        v as i128
    }

    fn random(rng: &mut Rng) -> Self {
        ((rng.next() as u128) << 64 | rng.next() as u128) as i128
    }
}

impl Gen for u128 {
    fn make(v: i64, _: &mut Rng) -> Self {
        (v as u128).wrapping_add(1 << 62)
    }

    fn random(rng: &mut Rng) -> Self {
        (rng.next() as u128) << 64 | rng.next() as u128
    }
}

impl Gen for bool {
    fn make(v: i64, _: &mut Rng) -> Self {
        v & 1 != 0
    }

    fn random(rng: &mut Rng) -> Self {
        rng.next() & 1 != 0
    }
}

impl Gen for char {
    fn make(v: i64, _: &mut Rng) -> Self {
        char::from_u32((v.rem_euclid(0xD700)) as u32 + 32).unwrap()
    }

    fn random(rng: &mut Rng) -> Self {
        char::from_u32((rng.next() % 0xD700) as u32 + 32).unwrap()
    }
}

impl Gen for F32Bits {
    fn make(v: i64, _: &mut Rng) -> Self {
        F32Bits((v as f32 * 0.25).to_bits())
    }

    fn random(rng: &mut Rng) -> Self {
        F32Bits((((rng.next() >> 11) as f64 / (1u64 << 53) as f64 * 2e6 - 1e6) as f32).to_bits())
    }
}

impl Gen for F64Bits {
    fn make(v: i64, _: &mut Rng) -> Self {
        F64Bits((v as f64 * 0.25).to_bits())
    }

    fn random(rng: &mut Rng) -> Self {
        F64Bits(((rng.next() >> 11) as f64 / (1u64 << 53) as f64 * 2e6 - 1e6).to_bits())
    }
}

impl Gen for Color {
    fn make(v: i64, _: &mut Rng) -> Self {
        [Color::Red, Color::Green, Color::Blue, Color::Black][v.rem_euclid(4) as usize]
    }

    fn random(rng: &mut Rng) -> Self {
        let v = (rng.next() % 4) as i64;
        Self::make(v, rng)
    }
}

impl Gen for String {
    fn make(v: i64, _: &mut Rng) -> Self {
        padded(v)
    }

    fn random(rng: &mut Rng) -> Self {
        word(rng)
    }
}

impl Gen for &'static str {
    fn make(v: i64, _: &mut Rng) -> Self {
        leak(padded(v))
    }

    fn random(rng: &mut Rng) -> Self {
        leak(word(rng))
    }
}

impl Gen for Vec<u8> {
    fn make(v: i64, _: &mut Rng) -> Self {
        padded(v).into_bytes()
    }

    fn random(rng: &mut Rng) -> Self {
        word(rng).into_bytes()
    }
}

impl Gen for Box<str> {
    fn make(v: i64, _: &mut Rng) -> Self {
        padded(v).into_boxed_str()
    }

    fn random(rng: &mut Rng) -> Self {
        word(rng).into_boxed_str()
    }
}

impl Gen for std::borrow::Cow<'static, str> {
    fn make(v: i64, _: &mut Rng) -> Self {
        std::borrow::Cow::Owned(padded(v))
    }

    fn random(rng: &mut Rng) -> Self {
        std::borrow::Cow::Borrowed(Box::leak(word(rng).into_boxed_str()))
    }
}

impl Gen for Arc<str> {
    fn make(v: i64, _: &mut Rng) -> Self {
        Arc::from(padded(v))
    }

    fn random(rng: &mut Rng) -> Self {
        Arc::from(word(rng))
    }
}

impl Gen for UserFixed {
    fn make(v: i64, _: &mut Rng) -> Self {
        let u = (v + (1i64 << 40)) as u64;
        UserFixed { major: ((u / 1000) & 0xFFFF) as u16, minor: (u % 1000) as u16 }
    }

    fn random(rng: &mut Rng) -> Self {
        UserFixed { major: rng.next() as u16, minor: rng.next() as u16 }
    }
}

impl Gen for UserBytes {
    fn make(v: i64, _: &mut Rng) -> Self {
        UserBytes { tag: padded(v) }
    }

    fn random(rng: &mut Rng) -> Self {
        UserBytes { tag: word(rng) }
    }
}

impl<K: Gen> Gen for Desc<K> {
    fn make(v: i64, rng: &mut Rng) -> Self {
        Desc(K::make(-v, rng))
    }

    fn random(rng: &mut Rng) -> Self {
        Desc(K::random(rng))
    }
}

/// The digits of a number, the most significant first.
fn digits<const N: usize>(v: i64) -> [i64; N] {
    let u = v.abs();
    let mut out = [0i64; N];
    let mut d = 1i64;
    for i in (0..N).rev() {
        out[i] = (u / d) % 1000;
        d *= 1000;
    }
    out
}

impl<A: Gen> Gen for (A,) {
    fn make(v: i64, rng: &mut Rng) -> Self {
        (A::make(v, rng),)
    }

    fn random(rng: &mut Rng) -> Self {
        (A::random(rng),)
    }
}

impl<A: Gen, B: Gen> Gen for (A, B) {
    fn make(v: i64, rng: &mut Rng) -> Self {
        let d = digits::<2>(v);
        (A::make(d[0], rng), B::make(d[1], rng))
    }

    fn random(rng: &mut Rng) -> Self {
        (A::random(rng), B::random(rng))
    }
}

impl<A: Gen, B: Gen, C: Gen> Gen for (A, B, C) {
    fn make(v: i64, rng: &mut Rng) -> Self {
        let d = digits::<3>(v);
        (A::make(d[0], rng), B::make(d[1], rng), C::make(d[2], rng))
    }

    fn random(rng: &mut Rng) -> Self {
        (A::random(rng), B::random(rng), C::random(rng))
    }
}

impl<K: Gen, const N: usize> Gen for [K; N] {
    fn make(v: i64, rng: &mut Rng) -> Self {
        let d = digits::<N>(v);
        core::array::from_fn(|i| K::make(d[i], rng))
    }

    fn random(rng: &mut Rng) -> Self {
        core::array::from_fn(|_| K::random(rng))
    }
}

#[derive(Clone, Debug)]
struct Tagged<K> {
    key: K,
    id: u32,
}

const PATTERNS: [&str; 10] = [
    "random",
    "sorted",
    "reverse",
    "nearly_sorted",
    "few_unique",
    "all_equal",
    "runs",
    "organ_pipe",
    "small_range",
    "sawtooth",
];

fn make_input<K: Gen>(pattern: &str, n: usize, seed: u64) -> Vec<Tagged<K>> {
    let mut rng = Rng::new(seed);
    let mut v = vec![0i64; n];
    match pattern {
        "sorted" => {
            for i in 0..n {
                v[i] = i as i64;
            }
        }
        "reverse" => {
            for i in 0..n {
                v[i] = (n - 1 - i) as i64;
            }
        }
        "nearly_sorted" => {
            for i in 0..n {
                v[i] = i as i64;
            }
            if n > 1 {
                for _ in 0..n / 100 + 1 {
                    let (a, b) = (rng.next() as usize % n, rng.next() as usize % n);
                    v.swap(a, b);
                }
            }
        }
        "few_unique" => {
            for x in v.iter_mut() {
                *x = (rng.next() % 100) as i64;
            }
        }
        "all_equal" => {
            for x in v.iter_mut() {
                *x = 42;
            }
        }
        "runs" => {
            let mut i = 0;
            while i < n {
                let len = 16 + rng.next() as usize % 2000;
                let base = (rng.next() % 100000) as i64;
                let mut k = 0;
                while k < len && i < n {
                    v[i] = base + k as i64;
                    k += 1;
                    i += 1;
                }
            }
        }
        "organ_pipe" => {
            for i in 0..n {
                v[i] = if i < n / 2 { i } else { n - i } as i64;
            }
        }
        "small_range" => {
            for x in v.iter_mut() {
                *x = (rng.next() % 4) as i64;
            }
        }
        "sawtooth" => {
            for i in 0..n {
                v[i] = (i % 1000) as i64;
            }
        }
        _ => {}
    }
    let mut out = Vec::with_capacity(n);
    for i in 0..n {
        let key = if pattern == "random" { K::random(&mut rng) } else { K::make(v[i], &mut rng) };
        out.push(Tagged { key, id: i as u32 });
    }
    out
}

/// Order by the natural order, stability, permutation.
fn verify<K: Natural>(out: &[Tagged<K>], n: usize, ctx: &str) {
    assert_eq!(out.len(), n, "{ctx}: size changed");
    let mut seen = vec![false; n];
    for i in 0..n {
        assert!((out[i].id as usize) < n && !seen[out[i].id as usize], "{ctx}: not a permutation at {i}");
        seen[out[i].id as usize] = true;
        if i > 0 {
            let c = out[i - 1].key.natural(&out[i].key);
            assert!(c != Ordering::Greater, "{ctx}: not sorted at {i}");
            assert!(!(c == Ordering::Equal && out[i - 1].id > out[i].id), "{ctx}: not stable at {i}");
        }
    }
}

// ---- the sorts by a key --------------------------------------------------------------------------

fn sizes(max_n: usize) -> Vec<usize> {
    let all = [
        0, 1, 2, 3, 5, 8, 16, 31, 32, 33, 64, 100, 255, 256, 257, 1000, 1023, 1024, 1025, 4096, 10000, 65535, 65536, 65537, 100000,
    ];
    all.iter().copied().filter(|&n| n <= max_n).collect()
}

fn test_key_type<K: Gen + Clone + Natural + Key + std::fmt::Debug>(name: &str, max_n: usize) {
    for pattern in PATTERNS {
        for n in sizes(max_n) {
            for seed in [1u64, 2] {
                if seed == 2 && n > 10000 {
                    continue;
                }
                let input: Vec<Tagged<K>> = make_input::<K>(pattern, n, seed * 7919 + n as u64);
                let ctx = format!("{name}/{pattern} n={n} seed={seed}");
                // by reference
                let mut a = input.clone();
                sort_by_key_ref(&mut a, |t: &Tagged<K>| &t.key);
                verify(&a, n, &format!("{ctx} [by ref]"));
                // by value
                let mut b = input.clone();
                sort_by_key(&mut b, |t: &Tagged<K>| t.key.clone());
                verify(&b, n, &format!("{ctx} [by value]"));
                assert!(a.iter().zip(&b).all(|(x, y)| x.id == y.id), "{ctx}: the two projection forms disagree");
            }
        }
    }
}

#[test]
fn every_key_type() {
    let (big, mid) = (4096, 2048);
    test_key_type::<i8>("i8", mid);
    test_key_type::<u8>("u8", mid);
    test_key_type::<i16>("i16", mid);
    test_key_type::<u16>("u16", mid);
    test_key_type::<i32>("i32", big);
    test_key_type::<u32>("u32", mid);
    test_key_type::<i64>("i64", big);
    test_key_type::<u64>("u64", mid);
    test_key_type::<i128>("i128", mid);
    test_key_type::<u128>("u128", mid);
    test_key_type::<usize>("usize", mid);
    test_key_type::<bool>("bool", mid);
    test_key_type::<char>("char", mid);
    test_key_type::<F32Bits>("f32", mid);
    test_key_type::<F64Bits>("f64", big);
    test_key_type::<String>("String", big);
    test_key_type::<&'static str>("&str", mid);
    test_key_type::<Vec<u8>>("Vec<u8>", mid);
    test_key_type::<Box<str>>("Box<str>", mid);
    test_key_type::<Arc<str>>("Arc<str>", mid);
    test_key_type::<std::borrow::Cow<'static, str>>("Cow<str>", mid);
    test_key_type::<(i32, i32)>("(i32, i32) packed", mid);
    test_key_type::<(i8, u16, i32)>("(i8, u16, i32) packed", mid);
    test_key_type::<(u8, bool)>("(u8, bool) packed 32", mid);
    test_key_type::<(i64, i64)>("(i64, i64) composite", mid);
    test_key_type::<(i32, String)>("(i32, String)", mid);
    test_key_type::<(&'static str, i32)>("(&str, i32)", mid);
    test_key_type::<(String, String)>("(String, String)", mid);
    test_key_type::<[i32; 3]>("[i32; 3] composite", mid);
    test_key_type::<Desc<i32>>("Desc<i32>", mid);
    test_key_type::<Desc<F64Bits>>("Desc<f64>", mid);
    test_key_type::<Desc<String>>("Desc<String>", mid);
    test_key_type::<(i32, Desc<F64Bits>)>("(i32, Desc<f64>)", mid);
    test_key_type::<Desc<(i32, String)>>("Desc<(i32, String)>", mid);
    test_key_type::<(F64Bits, String, Desc<u8>)>("(f64, String, Desc<u8>)", mid);
    test_key_type::<((i32, i32), (String,))>("nested tuple", mid);
}

/// Types of the caller, each through a key that stands for it.
#[test]
fn keys_of_the_caller() {
    for pattern in PATTERNS {
        for n in sizes(10_000) {
            let mut a = make_input::<Color>(pattern, n, 7919 + n as u64);
            sort_by_key(&mut a, |t: &Tagged<Color>| t.key.number() as u8 ^ 0x80);
            verify(&a, n, &format!("enum Color/{pattern} n={n}"));
            let mut b = make_input::<UserFixed>(pattern, n, 7919 + n as u64);
            sort_by_key(&mut b, |t: &Tagged<UserFixed>| (t.key.major as u32) << 16 | t.key.minor as u32);
            verify(&b, n, &format!("user fixed key/{pattern} n={n}"));
            let mut c = make_input::<UserBytes>(pattern, n, 7919 + n as u64);
            sort_by_key_ref(&mut c, |t: &Tagged<UserBytes>| t.key.tag.as_bytes());
            verify(&c, n, &format!("user bytes key/{pattern} n={n}"));
        }
    }
}

/// The largest sizes on one pattern after the other.
fn test_large<K: Gen + Clone + Natural + Key>(name: &str) {
    for pattern in PATTERNS {
        for n in [10_000usize, 65_536, 100_000] {
            let input: Vec<Tagged<K>> = make_input::<K>(pattern, n, 7919 + n as u64);
            let mut a = input.clone();
            sort_by_key_ref(&mut a, |t: &Tagged<K>| &t.key);
            verify(&a, n, &format!("{name}/{pattern} n={n}"));
        }
    }
}

#[test]
fn large_i32_keys() {
    test_large::<i32>("i32");
}

#[test]
fn large_i64_keys() {
    test_large::<i64>("i64");
}

#[test]
fn large_f64_keys() {
    test_large::<F64Bits>("f64");
}

#[test]
fn large_string_keys() {
    test_large::<String>("String");
}

/// Sorting a vector of keys directly must agree with a stable sort under the
/// natural order.
fn test_self_keyed<K: Gen + Clone + Natural + Key + std::fmt::Debug>(name: &str, max_n: usize) {
    for pattern in PATTERNS {
        for n in [0usize, 1, 7, 33, 1000, 4097, 100000] {
            if n > max_n {
                continue;
            }
            let input = make_input::<K>(pattern, n, n as u64 + 17);
            let mut v: Vec<K> = input.iter().map(|t| t.key.clone()).collect();
            let mut w = v.clone();
            sort(&mut v);
            w.sort_by(|x, y| x.natural(y));
            for i in 0..n {
                assert!(v[i].identical(&w[i]), "{name}/{pattern} n={n}: differs from a stable sort at {i}: {:?} vs {:?}", v[i], w[i]);
            }
        }
    }
}

#[test]
fn self_keyed() {
    let (big, mid) = (100_000, 10_000);
    test_self_keyed::<i32>("i32", big);
    test_self_keyed::<u64>("u64", mid);
    test_self_keyed::<i8>("i8", mid);
    test_self_keyed::<F32Bits>("f32", mid);
    test_self_keyed::<F64Bits>("f64", big);
    test_self_keyed::<String>("String", mid);
    test_self_keyed::<(i16, i16)>("(i16, i16)", mid);
    test_self_keyed::<u128>("u128", mid);
}

/// The sorted keys are written back bit for bit, the two zeros in input order.
fn check_plain<K: Natural + Clone + std::fmt::Debug + Key>(v: &[K], ctx: &str) {
    let mut a = v.to_vec();
    let mut b = v.to_vec();
    sort(&mut a);
    b.sort_by(|x, y| x.natural(y));
    for i in 0..a.len() {
        assert!(a[i].identical(&b[i]), "{ctx} n={}: differs from a stable sort at {i}: {:?} vs {:?}", v.len(), a[i], b[i]);
    }
}

#[test]
fn plain_keys() {
    let mut rng = Rng::new(5);
    for n in [33usize, 1000, 4097, 100_000] {
        let pick = |rng: &mut Rng| -> f64 {
            match rng.next() % 16 {
                0..=2 => -0.0,
                3..=5 => 0.0,
                6 => f64::NAN,
                7 => -f64::NAN,
                8 => f64::INFINITY,
                9 => f64::NEG_INFINITY,
                10 => (rng.next() % 100) as f64 - 50.0,
                _ => f64::from_bits(rng.next()),
            }
        };
        let f: Vec<F64Bits> = (0..n).map(|_| F64Bits(pick(&mut rng).to_bits())).collect();
        check_plain(&f, "f64 with zeros");
        let zeros: Vec<F64Bits> = (0..n).map(|i| F64Bits(if i % 3 == 0 { -0.0f64 } else { 0.0f64 }.to_bits())).collect();
        check_plain(&zeros, "f64 all zeros");
        let mut sorted_zeros: Vec<F64Bits> = (0..n).map(|i| F64Bits(((i / 4) as f64 - (n / 8) as f64).to_bits())).collect();
        for i in (0..n).step_by(7) {
            sorted_zeros[i] = F64Bits((-0.0f64).to_bits());
        }
        check_plain(&sorted_zeros, "f64 nearly sorted with negative zeros");
        let u: Vec<u64> = (0..n).map(|_| rng.next()).collect();
        check_plain(&u, "u64 random");
        let i: Vec<i64> = (0..n).map(|_| (rng.next() % 7) as i64 - 3).collect();
        check_plain(&i, "i64 few unique");
        let s: Vec<usize> = (0..n).map(|i| n - i).collect();
        check_plain(&s, "usize reversed");
        let pick32 = |rng: &mut Rng| -> f32 {
            match rng.next() % 16 {
                0..=2 => -0.0,
                3..=5 => 0.0,
                6 => f32::NAN,
                7 => -f32::NAN,
                8 => f32::INFINITY,
                9 => f32::NEG_INFINITY,
                10 => (rng.next() % 100) as f32 - 50.0,
                _ => {
                    let x = f32::from_bits(rng.next() as u32);
                    if x.is_nan() {
                        1.5
                    } else {
                        x
                    }
                }
            }
        };
        let f: Vec<F32Bits> = (0..n).map(|_| F32Bits(pick32(&mut rng).to_bits())).collect();
        check_plain(&f, "f32 with zeros");
        let zeros: Vec<F32Bits> = (0..n).map(|i| F32Bits(if i % 3 == 0 { -0.0f32 } else { 0.0f32 }.to_bits())).collect();
        check_plain(&zeros, "f32 all zeros");
        let few: Vec<i32> = (0..n).map(|_| (rng.next() % 7) as i32 - 3).collect();
        check_plain(&few, "i32 few unique");
        let u: Vec<u32> = (0..n).map(|_| rng.next() as u32).collect();
        check_plain(&u, "u32 random");
        let h: Vec<i16> = (0..n).map(|_| rng.next() as i16).collect();
        check_plain(&h, "i16 random");
        let b: Vec<u8> = (0..n).map(|_| rng.next() as u8).collect();
        check_plain(&b, "u8 random");
        let r: Vec<i8> = (0..n).map(|i| (((n - i) % 200) as i32 - 100) as i8).collect();
        check_plain(&r, "i8 reversed");
    }
}

#[test]
fn float_order() {
    for n in [16usize, 40, 5000, 70000] {
        let mut rng = Rng::new(99);
        let quiet = 0x7FF8_0000_0000_0000u64;
        let sign = 0x8000_0000_0000_0000u64;
        let pool: Vec<f64> = vec![
            0.0,
            -0.0,
            1.0,
            -1.0,
            f64::INFINITY,
            f64::NEG_INFINITY,
            1e30,
            -1e30,
            f64::from_bits(quiet),
            f64::from_bits(quiet | sign),
            f64::from_bits(quiet | 1),
            f64::from_bits(quiet | sign | 1),
            f64::from_bits(1),
            -f64::from_bits(1),
            f64::MAX,
            f64::MIN,
        ];
        let mut v: Vec<Tagged<F64Bits>> =
            (0..n).map(|i| Tagged { key: F64Bits(pool[rng.next() as usize % pool.len()].to_bits()), id: i as u32 }).collect();
        sort_by_key(&mut v, |t: &Tagged<F64Bits>| t.key);
        let cls = |x: f64| -> i32 {
            if x.is_nan() {
                return if x.is_sign_negative() { 0 } else { 6 };
            }
            if x.is_infinite() {
                return if x < 0.0 { 1 } else { 5 };
            }
            if x == 0.0 {
                return 3;
            }
            if x < 0.0 {
                2
            } else {
                4
            }
        };
        let mut seen = vec![false; n];
        for i in 0..n {
            assert!(!seen[v[i].id as usize], "permutation");
            seen[v[i].id as usize] = true;
            if i == 0 {
                continue;
            }
            let (a, b) = (f64::from_bits(v[i - 1].key.0), f64::from_bits(v[i].key.0));
            let (ca, cb) = (cls(a), cls(b));
            assert!(ca <= cb, "class order at {i}");
            if ca == cb && (ca == 2 || ca == 4) {
                assert!(b >= a, "value order at {i}");
            }
            if ca == cb && ca == 3 {
                assert!(v[i - 1].id < v[i].id, "zeros are equal and stable at {i}");
            }
            if ca == cb && (ca == 0 || ca == 6) {
                let (ma, mb) = (a.to_bits() & !sign, b.to_bits() & !sign);
                if ca == 6 {
                    assert!(ma <= mb, "positive NaN payload order at {i}");
                } else {
                    assert!(ma >= mb, "negative NaN payload order at {i}");
                }
                if ma == mb {
                    assert!(v[i - 1].id < v[i].id, "equal NaNs are stable at {i}");
                }
            }
        }
    }
    let mut v: Vec<F32Bits> = [f32::NAN, -0.0, 0.0, -f32::NAN, 1.0, -1.0, f32::INFINITY, f32::NEG_INFINITY].iter().map(|x| F32Bits(x.to_bits())).collect();
    let mut w = v.clone();
    sort(&mut v);
    w.sort_by(|a, b| a.natural(b));
    assert!(v.iter().zip(&w).all(|(a, b)| a.0 == b.0), "{v:?} vs {w:?}");
}

#[derive(Clone, Debug, PartialEq)]
struct Row {
    id: i64,
    name: String,
    score: f64,
}

#[derive(Clone, Copy)]
struct Big {
    key: i64,
    payload: [u8; 120],
}

#[derive(Clone, Copy)]
struct Wide {
    key: i32,
    id: u32,
    payload: [u8; 56],
}

fn stable_rows(rows: &[Row], order: &dyn Fn(&Row, &Row) -> Ordering) -> Vec<Row> {
    let mut r = rows.to_vec();
    r.sort_by(order);
    r
}

#[test]
fn containers_and_element_kinds() {
    let mut rng = Rng::new(5);
    let n = 20000;
    let rows: Vec<Row> = (0..n).map(|_| Row { id: (rng.next() % 5000) as i64, name: word(&mut rng), score: (rng.next() % 1000) as f64 / 8.0 }).collect();
    let mut r1 = rows.clone();
    sort_by_key(&mut r1, |r: &Row| r.id);
    assert_eq!(r1, stable_rows(&rows, &|a, b| a.id.cmp(&b.id)), "Row by id");
    let mut r2 = rows.clone();
    sort_by_key_ref(&mut r2, |r: &Row| r.name.as_str());
    assert_eq!(r2, stable_rows(&rows, &|a, b| a.name.cmp(&b.name)), "Row by name (reference)");
    let mut r3 = rows.clone();
    sort_by_key(&mut r3, |r: &Row| format!("{}!", r.name));
    assert_eq!(r3, stable_rows(&rows, &|a, b| format!("{}!", a.name).cmp(&format!("{}!", b.name))), "Row by temporary string");
    let mut r4 = rows.clone();
    sort_by_key(&mut r4, |r: &Row| (r.id, Desc(F64Bits(r.score.to_bits()))));
    assert_eq!(r4, stable_rows(&rows, &|a, b| a.id.cmp(&b.id).then(b.score.partial_cmp(&a.score).unwrap())), "Row by (id, desc score)");
    let mut r5 = rows.clone();
    sort_by_key(&mut r5, |r: &Row| (r.name.clone(), r.id));
    assert_eq!(r5, stable_rows(&rows, &|a, b| (&a.name, a.id).cmp(&(&b.name, b.id))), "Row by (name, id)");
    let mut r6 = rows.clone();
    sort_by(&mut r6, |a: &Row, b: &Row| a.score.partial_cmp(&b.score).unwrap());
    assert_eq!(r6, stable_rows(&rows, &|a, b| a.score.partial_cmp(&b.score).unwrap()), "Row with comparator");
    let mut r7 = rows.clone();
    sort_by(&mut r7, |a: &Row, b: &Row| b.id.cmp(&a.id));
    assert_eq!(r7, stable_rows(&rows, &|a, b| b.id.cmp(&a.id)), "Row with descending comparator");
    let mut r8 = rows.clone();
    sort_by_key(&mut r8, |r: &Row| Desc(r.name.clone()));
    assert_eq!(r8, stable_rows(&rows, &|a, b| b.name.cmp(&a.name)), "Row by descending string");

    let s: Vec<String> = (0..n).map(|_| word(&mut rng)).collect();
    let mut reference = s.clone();
    reference.sort();
    let mut a = s.clone();
    sort(&mut a);
    assert_eq!(a, reference, "Vec<String>");
    let mut b = s.clone();
    sort_by_key_ref(&mut b, |x: &String| x.as_bytes());
    assert_eq!(b, reference, "Vec<String> by bytes");
    let mut c: Vec<&str> = s.iter().map(|x| x.as_str()).collect();
    sort(&mut c);
    assert!(c.iter().zip(&reference).all(|(x, y)| *x == y), "Vec<&str>");

    let p: Vec<Box<i32>> = (0..n).map(|_| Box::new((rng.next() % 1000) as i32)).collect();
    let mut reference: Vec<i32> = p.iter().map(|x| **x).collect();
    reference.sort();
    let mut q = p;
    sort_by_key(&mut q, |x: &Box<i32>| **x);
    assert!(q.iter().zip(&reference).all(|(x, y)| **x == *y), "Vec<Box<i32>>");
    let rc: Vec<std::rc::Rc<u32>> = (0..n).map(|_| std::rc::Rc::new(rng.next() as u32 % 3000)).collect();
    let mut rc2 = rc.clone();
    sort_by_key(&mut rc2, |x: &std::rc::Rc<u32>| **x);
    assert!(rc2.windows(2).all(|w| w[0] <= w[1]));
    assert!(rc2.iter().all(|x| std::rc::Rc::strong_count(x) == 2), "no element was duplicated or lost");

    let mut big: Vec<Big> = (0..n).map(|i| Big { key: (rng.next() % 3000) as i64, payload: [i as u8; 120] }).collect();
    let mut bref = big.clone();
    bref.sort_by_key(|b| b.key);
    sort_by_key(&mut big, |b: &Big| b.key);
    assert!(big.iter().zip(&bref).all(|(x, y)| x.key == y.key && x.payload == y.payload), "120-byte elements");
    let mut z = vec![(); 1000];
    sort_by_key(&mut z, |_: &()| 0u8);
    assert_eq!(z.len(), 1000);
    let mut e: Vec<i32> = vec![];
    sort(&mut e);
    let mut one = vec![7];
    sort(&mut one);
    assert_eq!(one, [7]);
    let mut two = vec![9, 3];
    sort(&mut two);
    assert_eq!(two, [3, 9]);
    let mut d: std::collections::VecDeque<u16> = (0..5000).map(|_| rng.next() as u16).collect();
    let mut dref: Vec<u16> = d.iter().copied().collect();
    dref.sort();
    sort(d.make_contiguous());
    assert!(d.iter().zip(&dref).all(|(x, y)| x == y), "VecDeque::make_contiguous");
    let mut arr = [5u8, 3, 9, 1, 3];
    sort(&mut arr);
    assert_eq!(arr, [1, 3, 3, 5, 9]);
    let mut chars: Vec<char> = "the quick brown fox".chars().collect();
    let mut cref = chars.clone();
    cref.sort();
    sort(&mut chars);
    assert_eq!(chars, cref);
}

#[test]
fn comparator_paths() {
    for pattern in PATTERNS {
        for n in [0usize, 1, 2, 16, 17, 32, 33, 100, 255, 1000, 4097, 10000, 100000] {
            let input = make_input::<i32>(pattern, n, 5 * n as u64 + 3);
            let mut a = input.clone();
            sort_by(&mut a, |x: &Tagged<i32>, y: &Tagged<i32>| x.key.cmp(&y.key));
            verify(&a, n, &format!("comparator 8-byte/{pattern} n={n}"));
            let mut w: Vec<Wide> = input.iter().map(|t| Wide { key: t.key, id: t.id, payload: [0; 56] }).collect();
            sort_by(&mut w, |x: &Wide, y: &Wide| x.key.cmp(&y.key));
            assert!(w.iter().all(|t| t.payload == [0; 56]));
            let tagged: Vec<Tagged<i32>> = w.iter().map(|t| Tagged { key: t.key, id: t.id }).collect();
            verify(&tagged, n, &format!("comparator 64-byte/{pattern} n={n}"));
        }
    }
    let mut v = make_input::<String>("random", 5000, 9);
    sort_by(&mut v, |a: &Tagged<String>, b: &Tagged<String>| a.key.cmp(&b.key));
    verify(&v, 5000, "comparator on String elements");
}

/// Sixteen bytes: a score, a number and a group.
type Mixed = [u64; 2];

fn mixed(score: f64, id: u32, group: i32) -> Mixed {
    [score.to_bits(), id as u64 | (group as u32 as u64) << 32]
}

fn score(m: &Mixed) -> f64 {
    f64::from_bits(m[0])
}

fn group(m: &Mixed) -> i32 {
    (m[1] >> 32) as u32 as i32
}

/// The same result as a stable sort whether the comparator is a window of the
/// element, coarser than one, only agrees with one on the sample, or is no window
/// at all.
#[test]
fn inferred_comparator() {
    let mut rng = Rng::new(23);
    for n in [40usize, 300, 5000, 100_000] {
        let v: Vec<Mixed> =
            (0..n).map(|i| mixed((rng.next() % 100_000) as f64 / 7.0 - 5000.0, i as u32, (rng.next() % 50) as i32)).collect();
        let same = |order: &dyn Fn(&Mixed, &Mixed) -> Ordering, ctx: &str| {
            let mut a = v.clone();
            let mut b = v.clone();
            sort_by_inferred(&mut a, order);
            b.sort_by(order);
            assert_eq!(a, b, "{ctx} n={n}: differs from a stable sort");
        };
        same(&|a, b| score(a).total_cmp(&score(b)), "f64 field");
        same(&|a, b| score(b).total_cmp(&score(a)), "f64 field descending");
        same(&|a, b| group(a).cmp(&group(b)), "i32 field with ties");
        same(&|a, b| (group(a) / 10).cmp(&(group(b) / 10)), "coarse comparator");
        same(&|a, b| group(a).cmp(&group(b)).then(score(b).total_cmp(&score(a))), "two fields");
        same(&|a, b| score(a).abs().total_cmp(&score(b).abs()), "not a window");
        let k = |g: i32| if g == 42 { i32::MAX } else { g };
        same(&|a, b| k(group(a)).cmp(&k(group(b))), "adversarial comparator");
    }
    let mut ints: Vec<i64> = (0..50_000).map(|_| rng.next() as i64 % 1000).collect();
    let mut w = ints.clone();
    sort_by_inferred(&mut ints, |a: &i64, b: &i64| b.cmp(a));
    w.sort_by(|a, b| b.cmp(a));
    assert_eq!(ints, w, "i64 descending");
}

#[test]
fn random_shapes() {
    let mut rng = Rng::new(2026);
    for _ in 0..400 {
        let n = (rng.next() % 3000) as usize;
        let pattern = PATTERNS[rng.next() as usize % PATTERNS.len()];
        let seed = rng.next();
        let mut a = make_input::<i32>(pattern, n, seed);
        sort_by_key(&mut a, |t: &Tagged<i32>| t.key);
        verify(&a, n, &format!("random shape i32 {pattern} n={n}"));
        let mut b = make_input::<String>(pattern, n, seed);
        sort_by_key_ref(&mut b, |t: &Tagged<String>| t.key.as_str());
        verify(&b, n, &format!("random shape String {pattern} n={n}"));
        let mut c = make_input::<(i16, &'static str, Desc<u32>)>(pattern, n, seed);
        sort_by_key_ref(&mut c, |t: &Tagged<(i16, &'static str, Desc<u32>)>| &t.key);
        verify(&c, n, &format!("random shape composite {pattern} n={n}"));
    }
}

#[test]
fn memory_cache_can_be_released() {
    let mut cache: Cache<Vec<u8>> = Cache::new();
    let mut v = make_input::<i64>("random", 200_000, 13);
    sort_by_key(&mut v, |t: &Tagged<i64>| t.key);
    assert!(release_memory(&mut cache).is_empty());
    let mut w = make_input::<i64>("random", 200_000, 14);
    set_memory_cache_limit(&mut cache, 0);
    sort_by_key(&mut w, |t: &Tagged<i64>| t.key);
    set_memory_cache_limit(&mut cache, 32 << 20);
    assert!(release_memory(&mut cache).is_empty());
    verify(&v, v.len(), "before release");
    verify(&w, w.len(), "with the cache disabled");
}

/// References that may be written through are keys as what they refer to is.
#[test]
fn references_that_may_be_written_through() {
    let mut numbers: Vec<i32> = (0..300).map(|i| i * 7919 % 101 - 50).collect();
    let mut want = numbers.clone();
    want.sort();
    let mut refs: Vec<&mut i32> = numbers.iter_mut().collect();
    sort(&mut refs);
    assert!(refs.iter().map(|r| **r).eq(want));
}

/// Durations by their seconds and nanoseconds.
#[test]
fn durations_by_their_parts() {
    let mut v: Vec<std::time::Duration> = (0..500u64).map(|i| std::time::Duration::new(i * 37 % 5, (i * 7919 % 1000) as u32)).collect();
    let mut want = v.clone();
    want.sort();
    sort_by_key(&mut v, |d: &std::time::Duration| (d.as_secs(), d.subsec_nanos()));
    assert_eq!(v, want);
}

// ---- memory that is asked for --------------------------------------------------------------------

#[test]
fn sorted_and_reversed_input_asks_for_no_memory() {
    let rising: Vec<u64> = (0..1000).map(|i| i / 3).collect();
    let falling: Vec<u64> = rising.iter().rev().copied().collect();
    for input in [&rising, &falling] {
        let mut v = input.clone();
        let mem = sort_by_impl(&mut v, &BySign(|a: &u64, b: &u64| if a < b { -1 } else { i32::from(a > b) }), FailingAlloc::new(usize::MAX));
        assert_eq!((mem.calls, &v), (0, &rising));
        let mut v = input.clone();
        let mem = sort_by_key_impl(&mut v, &Identity, FailingAlloc::new(usize::MAX));
        assert_eq!((mem.calls, &v), (0, &rising));
    }
}

/// Rows of up to 64 bytes take the displaced-element route where a comparison sorts
/// them; larger ones do not.
#[test]
fn nearly_sorted_rows_by_their_size() {
    fn rows<const N: usize>() -> Vec<[u64; N]> {
        (0..2000u64).map(|i| [if i % 250 == 200 { i - 100 } else { i }; N]).collect()
    }
    fn calls<const N: usize>() -> usize {
        let mut v = rows::<N>();
        let mem = sort_by_impl(&mut v, &BySign(|a: &[u64; N], b: &[u64; N]| if a[0] < b[0] { -1 } else { i32::from(a[0] > b[0]) }), FailingAlloc::new(usize::MAX));
        assert!(v.windows(2).all(|w| w[0][0] <= w[1][0]));
        mem.calls
    }
    assert_eq!(calls::<8>(), 5);
    assert!(calls::<9>() < 5);
}

// ---- memory that is refused ----------------------------------------------------------------------

/// Runs `f` with no failure and then with each request for memory refused.
fn at_every_point(name: &str, f: &dyn Fn(FailingAlloc, &str) -> FailingAlloc) {
    let mem = f(FailingAlloc::new(usize::MAX), &format!("{name} baseline"));
    let total = mem.calls;
    assert_eq!(mem.live, 0, "{name}: scratch leaked");
    assert!(total > 0, "{name}: the baseline did not allocate");
    for k in 0..=total {
        let mem = f(FailingAlloc::new(k), &format!("{name} allocation {k} of {total} failed"));
        assert_eq!(mem.live, 0, "{name} allocation {k} failed: scratch leaked");
    }
}

fn key_of<K>(t: &Tagged<K>) -> &K {
    &t.key
}

fn case<K: Gen + Clone + Natural + Key>(name: &str, pattern: &str, n: usize) {
    let input = make_input::<K>(pattern, n, 31 + n as u64);
    at_every_point(&format!("{name}/{pattern}"), &|mem, ctx| {
        let mut v = input.clone();
        let mem = sort_by_key_impl(&mut v, &ByRef(key_of::<K>, PhantomData::<K>), mem);
        verify(&v, n, ctx);
        mem
    });
}

fn plain_case<K: Clone + Natural + Key + std::fmt::Debug>(name: &str, input: &[K]) {
    let mut w = input.to_vec();
    w.sort_by(|x, y| x.natural(y));
    at_every_point(name, &|mem, ctx| {
        let mut v = input.to_vec();
        let mem = sort_by_key_impl(&mut v, &Identity, mem);
        for i in 0..v.len() {
            assert!(v[i].identical(&w[i]), "{ctx}: differs at {i}: {:?} vs {:?}", v[i], w[i]);
        }
        mem
    });
}

#[test]
fn plain_key_allocation_points() {
    let n = 5000;
    let mut rng = Rng::new(11);
    let f: Vec<F64Bits> = (0..n)
        .map(|i| {
            F64Bits(
                match i % 5 {
                    0 => -0.0,
                    1 => 0.0,
                    _ => (rng.next() % 1000) as f64 - 500.0,
                }
                .to_bits(),
            )
        })
        .collect();
    plain_case("f64 with zeros", &f);
    let u: Vec<u64> = (0..n).map(|_| rng.next()).collect();
    plain_case("u64 random", &u);
    let f: Vec<F32Bits> = (0..n)
        .map(|i| {
            F32Bits(
                match i % 5 {
                    0 => -0.0,
                    1 => 0.0,
                    _ => (rng.next() % 1000) as f32 - 500.0,
                }
                .to_bits(),
            )
        })
        .collect();
    plain_case("f32 with zeros", &f);
    let i: Vec<i32> = (0..n).map(|_| rng.next() as i32).collect();
    plain_case("i32 random", &i);
}

#[derive(Clone, Copy)]
struct Padded<const P: usize> {
    key: i32,
    id: u32,
    payload: [u8; P],
}

fn comparator_case<const P: usize>(pattern: &str, n: usize) {
    let input: Vec<Padded<P>> = make_input::<i32>(pattern, n, 37 + n as u64).iter().map(|t| Padded { key: t.key, id: t.id, payload: [0; P] }).collect();
    at_every_point(&format!("comparator {P}/{pattern}"), &|mem, ctx| {
        let mut v = input.clone();
        let mem = sort_by_impl(
            &mut v,
            &BySign(|a: &Padded<P>, b: &Padded<P>| match a.key.cmp(&b.key) {
                Ordering::Less => -1i32,
                Ordering::Equal => 0,
                Ordering::Greater => 1,
            }),
            mem,
        );
        assert!(v.iter().all(|w| w.payload == [0; P]));
        let tagged: Vec<Tagged<i32>> = v.iter().map(|w| Tagged { key: w.key, id: w.id }).collect();
        verify(&tagged, n, ctx);
        mem
    });
}

#[test]
fn comparator_allocation_points() {
    comparator_case::<56>("random", 5000);
    comparator_case::<56>("few_unique", 5000);
    comparator_case::<120>("nearly_sorted", 20000);
    comparator_case::<120>("random", 5000);
}

#[test]
fn every_allocation_point() {
    case::<i32>("i32", "random", 5000);
    case::<i32>("i32", "nearly_sorted", 20000);
    case::<i32>("i32", "few_unique", 5000);
    case::<i32>("i32", "organ_pipe", 5000);
    case::<i64>("i64", "random", 5000);
    case::<F64Bits>("f64", "organ_pipe", 5000);
    case::<F64Bits>("f64", "runs", 5000);
    case::<String>("String", "random", 3000);
    case::<String>("String", "few_unique", 3000);
    case::<(i64, i64)>("(i64, i64)", "random", 2000);
    case::<(i32, String)>("(i32, String)", "random", 2000);
}

// ---- bytes of any kind ---------------------------------------------------------------------------

fn run<K: Key + Natural + Clone>(mut v: Vec<Tagged<K>>, what: &str) {
    let n = v.len();
    sort_by_key_ref(&mut v, |t: &Tagged<K>| &t.key);
    verify(&v, n, what);
}

fn fuzz_one(data: &[u8]) {
    if data.is_empty() {
        return;
    }
    let mode = data[0] % 7;
    let data = &data[1..];
    match mode {
        0 => {
            let v: Vec<Tagged<i32>> =
                data.chunks_exact(4).enumerate().map(|(i, c)| Tagged { key: i32::from_le_bytes(c.try_into().unwrap()), id: i as u32 }).collect();
            run(v, "i32");
        }
        1 => {
            let v: Vec<Tagged<u8>> = data.iter().enumerate().map(|(i, &b)| Tagged { key: b, id: i as u32 }).collect();
            run(v, "u8");
        }
        2 => {
            let mut v: Vec<Tagged<Vec<u8>>> = Vec::new();
            let mut cur = Vec::new();
            for &b in data {
                if b == 0 || cur.len() >= 40 {
                    v.push(Tagged { key: std::mem::take(&mut cur), id: v.len() as u32 });
                } else {
                    cur.push(b);
                }
            }
            v.push(Tagged { key: cur, id: v.len() as u32 });
            run(v, "bytes");
        }
        3 => {
            let v: Vec<Tagged<F64Bits>> = data
                .chunks_exact(8)
                .enumerate()
                .map(|(i, c)| Tagged { key: F64Bits(u64::from_le_bytes(c.try_into().unwrap())), id: i as u32 })
                .collect();
            run(v, "f64");
        }
        4 => {
            let mut v: Vec<Tagged<(i16, String, Desc<u32>)>> = Vec::new();
            for c in data.chunks_exact(8) {
                let a = i16::from_le_bytes([c[0], c[1]]);
                let u = u32::from_le_bytes([c[2], c[3], c[4], c[5]]);
                let s: String = c[6..6 + (c[6] % 3) as usize].iter().map(|&b| (b'a' + b % 26) as char).collect();
                v.push(Tagged { key: (a, s, Desc(u)), id: v.len() as u32 });
            }
            run(v, "composite");
        }
        5 => {
            let v: Vec<Tagged<i64>> = data
                .iter()
                .enumerate()
                .map(|(i, &b)| Tagged { key: i as i64 * 1000 + if b % 7 == 0 { -(b as i64) * 100000 } else { 0 }, id: i as u32 })
                .collect();
            run(v, "i64 structured");
        }
        _ => {
            let mut v: Vec<Tagged<u64>> =
                data.chunks_exact(2).enumerate().map(|(i, c)| Tagged { key: u16::from_le_bytes([c[0], c[1]]) as u64 * 3, id: i as u32 }).collect();
            let n = v.len();
            sort_by(&mut v, |a: &Tagged<u64>, b: &Tagged<u64>| a.key.cmp(&b.key));
            verify(&v, n, "comparator");
        }
    }
}

#[test]
fn fuzz_smoke() {
    let mut s = 20260912u64;
    let mut next = || {
        s = s.wrapping_add(0x9E37_79B9_7F4A_7C15);
        let mut z = s;
        z = (z ^ (z >> 30)).wrapping_mul(0xBF58_476D_1CE4_E5B9);
        z = (z ^ (z >> 27)).wrapping_mul(0x94D0_49BB_1331_11EB);
        z ^ (z >> 31)
    };
    for it in 0..3000 {
        let size = (next() % if it % 10 == 0 { 20000 } else { 600 }) as usize;
        let modulus = if it % 3 == 0 { 4 } else { 256 };
        let bytes: Vec<u8> = (0..size).map(|_| (next() % modulus) as u8).collect();
        fuzz_one(&bytes);
    }
}

#[test]
fn a_key_is_computed_once_for_each_of_a_few_elements() {
    let calls = std::cell::Cell::new(0);
    let mut v: Vec<u32> = (0..32).map(|i| i * 7919 % 32).collect();
    sort_by_key(&mut v, |x: &u32| {
        calls.set(calls.get() + 1);
        !*x
    });
    assert_eq!(v, (0..32).rev().collect::<Vec<u32>>());
    assert_eq!(calls.get(), 32);
}

#[test]
fn texts_that_are_borrowed_or_owned() {
    let mut v: Vec<std::borrow::Cow<'static, str>> = (0..200u32).map(|i| if i % 2 == 0 { "b".into() } else { format!("a{:03}", 999 - i).into() }).collect();
    let mut want = v.clone();
    want.sort();
    sort(&mut v);
    assert_eq!(v, want);
}
