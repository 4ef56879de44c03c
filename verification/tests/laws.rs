//! What holds of the sorts together, on values.
use brainsort::api::{sort_by_impl, sort_by_key_impl, sort_displaced_elements, sort_known_shape};
use brainsort::compare::BySign;
use brainsort::infer::sort_by_inferred_impl;
use brainsort::key::compose::{desc, Desc};
use brainsort::key::number::{f32_radix, f64_from_radix, f64_radix, F64Bits};
use brainsort::key::Key;
use brainsort::memory::{set_memory_cache_limit, Block, Cache, DefaultAlloc, LimitedAlloc};
use brainsort::project::Identity;
use brainsort::{sort, sort_by, sort_by_inferred, sort_by_key, sort_by_key_ref, VERSION};
use std::cmp::Ordering;

fn numbers(n: usize, modulus: u64) -> Vec<u64> {
    let mut s = 7u64;
    (0..n)
        .map(|_| {
            s = s.wrapping_mul(6364136223846793005).wrapping_add(1442695040888963407);
            (s >> 33) % modulus
        })
        .collect()
}

#[test]
fn sorting_twice_changes_nothing() {
    let mut v = numbers(5000, 900);
    sort(&mut v);
    let once = v.clone();
    sort(&mut v);
    assert_eq!(v, once);
}

#[test]
fn every_entry_point_gives_the_same_result() {
    let v: Vec<(u64, usize)> = numbers(6000, 300).into_iter().enumerate().map(|(i, x)| (x, i)).collect();
    let mut a = v.clone();
    sort_by_key(&mut a, |p: &(u64, usize)| p.0);
    let mut b = v.clone();
    sort_by_key_ref(&mut b, |p: &(u64, usize)| &p.0);
    let mut c = v.clone();
    sort_by(&mut c, |x: &(u64, usize), y: &(u64, usize)| x.0.cmp(&y.0));
    let mut d = v.clone();
    sort(&mut d);
    assert_eq!(a, b);
    assert_eq!(a, c);
    assert_eq!(a, d);
    let mut e: Vec<[u64; 2]> = v.iter().map(|p| [p.0, p.1 as u64]).collect();
    sort_by_inferred(&mut e, |x: &[u64; 2], y: &[u64; 2]| x[0].cmp(&y[0]));
    assert!(e.iter().zip(&a).all(|(x, y)| x[0] == y.0 && x[1] == y.1 as u64));
}

#[test]
fn two_sorts_are_a_sort_by_the_pair() {
    let v: Vec<(u64, u64, usize)> = numbers(4000, 20).into_iter().zip(numbers(8000, 30).into_iter().skip(4000)).enumerate().map(|(i, (x, y))| (x, y, i)).collect();
    let mut a = v.clone();
    sort_by_key(&mut a, |t: &(u64, u64, usize)| t.1);
    sort_by_key(&mut a, |t: &(u64, u64, usize)| t.0);
    let mut b = v.clone();
    sort_by_key(&mut b, |t: &(u64, u64, usize)| (t.0, t.1));
    assert_eq!(a, b);
}

#[test]
fn a_reversed_key_keeps_ties_in_order() {
    let v: Vec<(u64, usize)> = numbers(3000, 10).into_iter().enumerate().map(|(i, x)| (x, i)).collect();
    let mut a = v.clone();
    sort_by_key(&mut a, |p: &(u64, usize)| desc(p.0));
    assert!(a.windows(2).all(|w| w[0].0 > w[1].0 || (w[0].0 == w[1].0 && w[0].1 < w[1].1)));
    assert_eq!(Desc(3u8).cmp_key(&Desc(5u8)), Ordering::Greater);
}

#[test]
fn keys_compare_as_their_values_do() {
    assert_eq!((-1i8).cmp_key(&1), Ordering::Less);
    assert_eq!(u128::MAX.cmp_key(&0), Ordering::Greater);
    assert_eq!(i128::MIN.cmp_key(&-1), Ordering::Less);
    assert_eq!(false.cmp_key(&true), Ordering::Less);
    assert_eq!('a'.cmp_key(&'b'), Ordering::Less);
    assert_eq!("ab".cmp_key("abc"), Ordering::Less);
    assert_eq!(F64Bits((-0.0f64).to_bits()).cmp_key(&F64Bits(0.0f64.to_bits())), Ordering::Equal);
    assert_eq!(F64Bits(f64::NAN.to_bits()).cmp_key(&F64Bits(f64::INFINITY.to_bits())), Ordering::Greater);
    assert_eq!((1u8, String::from("b")).cmp_key(&(1u8, String::from("a"))), Ordering::Greater);
    assert_eq!(f64_radix(1.0f64.to_bits()), 1.0f64.to_bits() + (1 << 63));
    assert_eq!(f64_from_radix(f64_radix((-2.5f64).to_bits()), false), (-2.5f64).to_bits());
    assert_eq!(f64_from_radix(1 << 63, true), (-0.0f64).to_bits());
    assert_eq!(f32_radix(0), 1 << 31);
}

/// Keys at the top of the key space, close together: a range that straddles a
/// power of two.
#[test]
fn narrow_ranges_at_the_top_of_the_key_space() {
    let base = u64::MAX - 70_000;
    let mut v: Vec<u64> = numbers(70_000, 70_000).into_iter().map(|x| base + x).collect();
    let mut w = v.clone();
    w.sort();
    sort(&mut v);
    assert_eq!(v, w);
    let mut v: Vec<u64> = numbers(70_000, 60_000).into_iter().map(|x| (1u64 << 63) - 30_000 + x).collect();
    let mut w = v.clone();
    w.sort();
    sort(&mut v);
    assert_eq!(v, w);
    let mut v: Vec<u32> = numbers(70_000, 5000).into_iter().map(|x| u32::MAX - x as u32).collect();
    let mut w = v.clone();
    w.sort();
    sort(&mut v);
    assert_eq!(v, w);
}

/// A rare key with bits that no other key has.
#[test]
fn a_rare_key_is_sorted_too() {
    for at in [0usize, 1, 35_000, 69_999] {
        let mut v: Vec<u64> = numbers(70_000, 1 << 20);
        v[at] = 1 << 60;
        let mut w = v.clone();
        w.sort();
        sort(&mut v);
        assert_eq!(v, w);
    }
}

#[test]
fn refused_memory_changes_nothing_but_the_way() {
    let v = numbers(20_000, 1 << 40);
    let mut w = v.clone();
    w.sort();
    for grants in 0..6 {
        let mut a = v.clone();
        let _ = sort_by_key_impl(&mut a, &Identity, LimitedAlloc::new(usize::MAX, grants));
        assert_eq!(a, w, "{grants} grants");
        let mut b = v.clone();
        let _ = sort_by_key_impl(&mut b, &Identity, LimitedAlloc::new(1 << (8 + 3 * grants), usize::MAX));
        assert_eq!(b, w);
        let sign = |x: &u64, y: &u64| if x < y { -1i32 } else { (x > y) as i32 };
        let mut c = v.clone();
        let _ = sort_by_impl(&mut c, &BySign(sign), LimitedAlloc::new(usize::MAX, grants));
        assert_eq!(c, w);
        let mut d = v.clone();
        let _ = sort_by_inferred_impl(&mut d, &BySign(sign), LimitedAlloc::new(usize::MAX, grants));
        assert_eq!(d, w);
    }
    let mut e = v.clone();
    let _ = sort_by_key_impl(&mut e, &Identity, DefaultAlloc::new());
    assert_eq!(e, w);
}

#[test]
fn the_cache_stays_within_its_limit() {
    let mut c: Cache<u32> = Cache::new();
    set_memory_cache_limit(&mut c, 100_000);
    assert!(c.allocate(70_000).is_none());
    assert!(c.deallocate(Block { cap: 70_000, data: 1 }).is_empty());
    let victims = c.deallocate(Block { cap: 80_000, data: 2 });
    assert_eq!(victims.iter().map(|b| b.data).collect::<Vec<u32>>(), [1]);
    let found = c.allocate(75_000).unwrap();
    assert_eq!((found.cap, found.data), (80_000, 2));
    let refused = c.deallocate(Block { cap: 100_001, data: 3 });
    assert_eq!(refused[0].data, 3);
}

#[test]
fn the_version_is_known() {
    assert_eq!(VERSION, "1.1.0");
}

#[test]
fn a_number_is_given_back_by_its_radix_value() {
    assert_eq!(u8::from_radix(200, 0), Some(200));
    assert_eq!(u8::from_radix(256, 0), None);
    assert_eq!(i8::from_radix(0, 0), Some(-128));
    assert_eq!(i8::from_radix(256, 0), None);
    assert_eq!(u16::from_radix(0x1_0000, 0), None);
    assert_eq!(i16::from_radix(0x8001, 0), Some(1));
    assert_eq!(u32::from_radix(7, 0), Some(7));
    assert_eq!(i32::from_radix(0x7FFF_FFFF, 0), Some(-1));
    assert_eq!(u64::from_radix(u64::MAX, 0), Some(u64::MAX));
    assert_eq!(i64::from_radix(0, 0), Some(i64::MIN));
    assert_eq!(usize::from_radix(9, 0), Some(9));
    assert_eq!(isize::from_radix(1 << 63, 0), Some(0));
    assert_eq!(bool::from_radix(1, 0), Some(true));
    assert_eq!(bool::from_radix(2, 0), None);
    assert_eq!(char::from_radix(65, 0), None);
    assert!(F64Bits::from_radix(1 << 63, 1) == Some(F64Bits((-0.0f64).to_bits())));
    assert!(String::from_radix(0, 0).is_none());
}

#[test]
fn the_element_route_takes_what_is_nearly_sorted() {
    let mut mem = DefaultAlloc::new();
    let mut v: Vec<u32> = (0..1000).collect();
    v.swap(100, 700);
    v.swap(300, 301);
    let mut want = v.clone();
    want.sort();
    assert!(sort_displaced_elements(&mut v, &Identity, &mut mem));
    assert_eq!(v, want);
    let mut v: Vec<u64> = numbers(1000, 1 << 30);
    let before = v.clone();
    assert!(!sort_displaced_elements(&mut v, &Identity, &mut mem));
    assert_eq!(v, before);
}

#[test]
fn known_shapes_are_sorted_and_others_left_alone() {
    let mut mem = DefaultAlloc::new();
    let mut up: Vec<u32> = (0..100).collect();
    assert!(sort_known_shape(&mut up, &Identity, 16, &mut mem));
    let mut down: Vec<u32> = (0..100).rev().collect();
    assert!(sort_known_shape(&mut down, &Identity, 16, &mut mem));
    assert_eq!(down, up);
    let mut near: Vec<u32> = (0..100).collect();
    near.swap(10, 60);
    let before = near.clone();
    assert!(!sort_known_shape(&mut near, &Identity, 3, &mut mem));
    assert_eq!(near, before);
    assert!(sort_known_shape(&mut near, &Identity, 4, &mut mem));
    assert_eq!(near, up);
    let mut mixed: Vec<u64> = numbers(100, 1 << 20);
    let before = mixed.clone();
    assert!(!sort_known_shape(&mut mixed, &Identity, 16, &mut mem));
    assert_eq!(mixed, before);
}
