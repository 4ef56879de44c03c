//! What a caller may rely on: the results of the sorts, said of the elements and of
//! the answers of the functions that the sorts are handed.
use crate::algorithm::scout::{
    ascents_to, descents_to, lemma_ascents_nonneg, lemma_counts_grow, lemma_descents_nonneg,
    lemma_no_ascents, lemma_no_descents, lemma_sorted_no_descents,
};
use crate::api::{hopeless, in_turn, prescanned, recognised, Plain, PrescanResult};
use crate::compare::{comparator_follows, comparator_takes, ordering_of, sign_follows};
use crate::key::{by_leaves, key_le, key_order_total, key_ordering, Key, LeafModel};
use crate::key::number::{F32Bits, F64Bits};
use crate::key::slots::kept;
use crate::order::{class, lemma_permutation_len, sorted, stable_sort_of, tied_with, total_preorder};
use crate::project::{borrows, computes};
use crate::shape::{kind_of, none_bytes, repeated, reversed_parts, width_sum, Part, Shape};
use crate::text::{
    chunk_count, chunk_key_of, chunk_text, chunk_valid, examined, lemma_chunk_key, loaded,
    reversed_key, word,
};
use crate::view::{
    agree_below, arrays_take_their_bytes, given, lemma_lex_agree, lex_le, taken, too_large, Books,
};
use core::cmp::Ordering;
use vstd::arithmetic::div_mod::lemma_div_denominator;
use vstd::arithmetic::power::{lemma_pow0, lemma_pow1, lemma_pow_adds, lemma_pow_positive, pow};
use vstd::prelude::*;

verus! {

/// A sort gives the elements that it was handed, each as often, in order.
pub proof fn sorts_are_rearrangements_in_order<T>(le: spec_fn(T, T) -> bool, a: Seq<T>, b: Seq<T>)
    requires
        stable_sort_of(le, a, b),
    ensures
        b.len() == a.len(),
        b.to_multiset() == a.to_multiset(),
        forall|i: int, j: int| 0 <= i <= j < b.len() ==> le(#[trigger] b[i], #[trigger] b[j]),
{
    lemma_permutation_len(a, b);
}

/// Elements that tie with `x` stand in the result as they stood in the input.
pub proof fn ties_stay_in_input_order<T>(le: spec_fn(T, T) -> bool, a: Seq<T>, b: Seq<T>, x: T)
    requires
        stable_sort_of(le, a, b),
    ensures
        b.filter(|y: T| le(x, y) && le(y, x)) == a.filter(|y: T| le(x, y) && le(y, x)),
{
    let p = |y: T| le(x, y) && le(y, x);
    assert(tied_with(le, x) =~= p);
    assert(class(le, a, x) == class(le, b, x));
}

/// A sort by the elements puts none before one with a smaller key.
pub proof fn sort_goes_by_the_keys<T: Key>(a: Seq<T>, b: Seq<T>, i: int, j: int)
    requires
        stable_sort_of(by_leaves(|x: T| x.leaves()), a, b),
        0 <= i <= j < b.len(),
    ensures
        key_le(b[i].leaves(), b[j].leaves()),
{
    sorts_are_rearrangements_in_order(by_leaves(|x: T| x.leaves()), a, b);
    assert(by_leaves(|x: T| x.leaves())(b[i], b[j]));
}

/// Elements with the same key stand in the result of a sort by the elements as they
/// stood in the input.
pub proof fn sort_keeps_equal_keys_in_order<T: Key>(a: Seq<T>, b: Seq<T>, x: T)
    requires
        stable_sort_of(by_leaves(|x: T| x.leaves()), a, b),
    ensures
        b.filter(|y: T| y.leaves() == x.leaves()) == a.filter(|y: T| y.leaves() == x.leaves()),
{
    let le = by_leaves(|x: T| x.leaves());
    ties_stay_in_input_order(le, a, b, x);
    let p = |y: T| y.leaves() == x.leaves();
    assert forall|y: T| #[trigger] p(y) == (le(x, y) && le(y, x)) by {
        key_order_total(x.leaves(), y.leaves());
    }
    assert(p =~= (|y: T| le(x, y) && le(y, x)));
}

/// A sort by a computed key puts no element before one with a smaller key: so the
/// keys show that the function gives of the elements of the result.
pub proof fn sort_by_key_goes_by_the_keys<T, K: Key, F: Fn(&T) -> K>(f: F, k: spec_fn(T) -> Seq<LeafModel>, a: Seq<T>, b: Seq<T>, i: int, j: int, x: K, y: K)
    requires
        computes(f, k),
        stable_sort_of(by_leaves(k), a, b),
        0 <= i <= j < b.len(),
        call_ensures(f, (&b[i],), x),
        call_ensures(f, (&b[j],), y),
    ensures
        key_le(x.leaves(), y.leaves()),
{
    sorts_are_rearrangements_in_order(by_leaves(k), a, b);
    assert(by_leaves(k)(b[i], b[j]));
}

/// Elements whose computed keys are the same stand in the result as they stood in
/// the input.
pub proof fn sort_by_key_keeps_equal_keys_in_order<T, K: Key, F: Fn(&T) -> K>(f: F, k: spec_fn(T) -> Seq<LeafModel>, a: Seq<T>, b: Seq<T>, x: T, key: K)
    requires
        computes(f, k),
        stable_sort_of(by_leaves(k), a, b),
        call_ensures(f, (&x,), key),
    ensures
        b.filter(|y: T| k(y) == key.leaves()) == a.filter(|y: T| k(y) == key.leaves()),
{
    let le = by_leaves(k);
    ties_stay_in_input_order(le, a, b, x);
    let p = |y: T| k(y) == key.leaves();
    assert forall|y: T| #[trigger] p(y) == (le(x, y) && le(y, x)) by {
        key_order_total(k(x), k(y));
    }
    assert(p =~= (|y: T| le(x, y) && le(y, x)));
}

/// A sort by a borrowed key puts no element before one with a smaller key.
pub proof fn sort_by_key_ref_goes_by_the_keys<T, K: Key + ?Sized, F: Fn(&T) -> &K>(f: F, k: spec_fn(T) -> Seq<LeafModel>, a: Seq<T>, b: Seq<T>, i: int, j: int, x: &K, y: &K)
    requires
        borrows(f, k),
        stable_sort_of(by_leaves(k), a, b),
        0 <= i <= j < b.len(),
        call_ensures(f, (&b[i],), x),
        call_ensures(f, (&b[j],), y),
    ensures
        key_le((*x).leaves(), (*y).leaves()),
{
    sorts_are_rearrangements_in_order(by_leaves(k), a, b);
    assert(by_leaves(k)(b[i], b[j]));
}

/// The order that a comparator follows says what the comparator answers.
pub proof fn comparator_answers<T, F: Fn(&T, &T) -> Ordering>(f: F, le: spec_fn(T, T) -> bool, x: T, y: T, o: Ordering)
    requires
        comparator_follows(f, le),
        call_ensures(f, (&x, &y), o),
    ensures
        o == Ordering::Less <==> le(x, y) && !le(y, x),
        o == Ordering::Greater <==> le(y, x) && !le(x, y),
        o == Ordering::Equal <==> le(x, y) && le(y, x),
{
    assert(le(x, y) || le(y, x));
}

/// A sort by a comparator puts no element before one that the comparator says is
/// less.
pub proof fn sort_by_goes_by_the_comparator<T, F: Fn(&T, &T) -> Ordering>(f: F, le: spec_fn(T, T) -> bool, a: Seq<T>, b: Seq<T>, i: int, j: int, o: Ordering)
    requires
        comparator_follows(f, le),
        stable_sort_of(le, a, b),
        0 <= i <= j < b.len(),
        call_ensures(f, (&b[i], &b[j]), o),
    ensures
        o != Ordering::Greater,
{
    sorts_are_rearrangements_in_order(le, a, b);
    assert(le(b[i], b[j]));
}

/// The order that a function of numbers follows says what the function answers.
pub proof fn sign_answers<T, F: Fn(&T, &T) -> i32>(f: F, le: spec_fn(T, T) -> bool, x: T, y: T, r: i32)
    requires
        sign_follows(f, le),
        call_ensures(f, (&x, &y), r),
    ensures
        r < 0 <==> le(x, y) && !le(y, x),
        r > 0 <==> le(y, x) && !le(x, y),
        r == 0 <==> le(x, y) && le(y, x),
{
    assert(le(x, y) || le(y, x));
}

/// A comparator whose every answer is that of a total order follows it: nothing more
/// is asked of a comparator.
pub proof fn comparators_of_an_order_follow_it<T, F: Fn(&T, &T) -> Ordering>(f: F, le: spec_fn(T, T) -> bool, s: Seq<T>)
    requires
        forall|x: T, y: T| #[trigger] le(x, y) || le(y, x),
        forall|x: T, y: T, z: T| #[trigger] le(x, y) && #[trigger] le(y, z) ==> le(x, z),
        forall|x: T, y: T, o: Ordering| #[trigger]
            call_ensures(f, (&x, &y), o) ==> (o == Ordering::Less <==> !le(y, x)) && (o == Ordering::Greater <==> !le(x, y)),
        forall|x: T, y: T| call_requires(f, (&x, &y)),
    ensures
        comparator_follows(f, le),
        comparator_takes(f, s),
{
    assert forall|x: T, y: T, o: Ordering| #[trigger] call_ensures(f, (&x, &y), o) implies o == ordering_of(le, x, y) by {
        assert(le(x, y) || le(y, x));
    }
}

/// A function whose every answer has the sign of a total order follows it.
pub proof fn signs_of_an_order_follow_it<T, F: Fn(&T, &T) -> i32>(f: F, le: spec_fn(T, T) -> bool)
    requires
        forall|x: T, y: T| #[trigger] le(x, y) || le(y, x),
        forall|x: T, y: T, z: T| #[trigger] le(x, y) && #[trigger] le(y, z) ==> le(x, z),
        forall|x: T, y: T, r: i32| #[trigger] call_ensures(f, (&x, &y), r) ==> (r < 0 <==> !le(y, x)) && (r > 0 <==> !le(x, y)),
    ensures
        sign_follows(f, le),
{
}

/// A function that gives every element the key that it has computes its keys, and one
/// that lends it borrows them: nothing more is asked of a key function.
pub proof fn key_functions_are_those_that_give_the_key<T, K: Key, F: Fn(&T) -> K, G: Fn(&T) -> &K>(f: F, g: G, k: spec_fn(T) -> Seq<LeafModel>)
    requires
        forall|x: T, key: K| #[trigger] call_ensures(f, (&x,), key) ==> key.leaves() == k(x),
        forall|x: T, key: &K| #[trigger] call_ensures(g, (&x,), key) ==> (*key).leaves() == k(x),
    ensures
        computes(f, k),
        borrows(g, k),
{
}

// ---- the prescan ---------------------------------------------------------------------------------

proof fn lemma_counts_same<T>(le: spec_fn(T, T) -> bool, a: Seq<T>, b: Seq<T>, n: int)
    requires
        n <= a.len(),
        n <= b.len(),
        forall|i: int| 0 <= i < n ==> a[i] == b[i],
    ensures
        descents_to(le, a, n) == descents_to(le, b, n),
        ascents_to(le, a, n) == ascents_to(le, b, n),
    decreases n,
{
    if n > 1 {
        lemma_counts_same(le, a, b, n - 1);
    }
}

/// One element more is a descent where it is less than the last one, an ascent where
/// it is greater, and neither where it is first or the two are equal.
pub proof fn descents_and_ascents_count_neighbours<T>(le: spec_fn(T, T) -> bool, a: Seq<T>, x: T)
    ensures
        descents_to(le, Seq::empty().push(x), 1) == 0,
        ascents_to(le, Seq::empty().push(x), 1) == 0,
        a.len() > 0 ==> descents_to(le, a.push(x), a.len() as int + 1) == descents_to(le, a, a.len() as int) + if le(a.last(), x) {
            0int
        } else {
            1
        },
        a.len() > 0 ==> ascents_to(le, a.push(x), a.len() as int + 1) == ascents_to(le, a, a.len() as int) + if le(x, a.last()) {
            0int
        } else {
            1
        },
{
    lemma_counts_same(le, a.push(x), a, a.len() as int);
}

/// The prescan finds an input sorted where it is, and reversed where it is not sorted
/// and no element is greater than one before it.
pub proof fn prescan_finds_the_order<T>(le: spec_fn(T, T) -> bool, s: Seq<T>, r: PrescanResult)
    requires
        total_preorder(le),
        prescanned(le, s, r),
    ensures
        r.shape is Sorted <==> forall|i: int, j: int| 0 <= i <= j < s.len() ==> le(#[trigger] s[i], #[trigger] s[j]),
        r.shape is Reversed <==> !(r.shape is Sorted) && forall|i: int, j: int| 0 <= i <= j < s.len() ==> le(#[trigger] s[j], #[trigger] s[i]),
        r.shape is NearlySorted ==> 0 < r.descents && 16 * r.descents <= s.len() && 0 < r.ascents,
        r.shape is Unordered ==> r.descents == 0 || 16 * r.descents > s.len(),
{
    let n = s.len() as int;
    lemma_descents_nonneg(le, s, n);
    lemma_ascents_nonneg(le, s, n);
    assert(s.take(n) =~= s);
    if descents_to(le, s, n) == 0 {
        lemma_no_descents(le, s, n);
    }
    if sorted(le, s) {
        lemma_sorted_no_descents(le, s, n);
    }
    if ascents_to(le, s, n) == 0 {
        lemma_no_ascents(le, s, n);
    }
    let falls = forall|i: int, j: int| 0 <= i <= j < s.len() ==> le(#[trigger] s[j], #[trigger] s[i]);
    if falls {
        lemma_falls(le, s, n);
    }
    if exists|i: int| 1 <= i < n && #[trigger] hopeless(le, s, i) {
        let i = choose|i: int| 1 <= i < n && #[trigger] hopeless(le, s, i);
        lemma_counts_grow(le, s, i + 1, n);
        assert(!sorted(le, s));
        assert(!falls);
    }
}

proof fn lemma_falls<T>(le: spec_fn(T, T) -> bool, s: Seq<T>, n: int)
    requires
        0 <= n <= s.len(),
        forall|i: int, j: int| 0 <= i <= j < s.len() ==> le(#[trigger] s[j], #[trigger] s[i]),
    ensures
        ascents_to(le, s, n) == 0,
    decreases n,
{
    if n > 1 {
        lemma_falls(le, s, n - 1);
        assert(le(s[n - 1], s[n - 2]));
    }
}

/// The prescan gives up where, after a multiple of 256 elements, there was an ascent
/// and more descents than an eighth of the elements and 64; otherwise it counts them
/// all.
pub proof fn prescan_gives_up_on_the_unordered<T>(le: spec_fn(T, T) -> bool, s: Seq<T>, r: PrescanResult, i: int)
    requires
        prescanned(le, s, r),
    ensures
        0 < i && 256 * i < s.len() && ascents_to(le, s, 256 * i + 1) > 0 && descents_to(le, s, 256 * i + 1) > 32 * i + 64 ==> r.shape is Unordered && r.descents == 0
            && r.ascents == 0,
        (forall|k: int| 0 < k && 256 * k < s.len() ==> ascents_to(le, s, #[trigger] (256 * k) + 1) == 0 || descents_to(le, s, 256 * k + 1) <= 32 * k + 64) ==> r.descents == descents_to(
            le,
            s,
            s.len() as int,
        ) && r.ascents == ascents_to(le, s, s.len() as int),
{
    let n = s.len() as int;
    if 0 < i && 256 * i < s.len() && ascents_to(le, s, 256 * i + 1) > 0 && descents_to(le, s, 256 * i + 1) > 32 * i + 64 {
        assert(hopeless(le, s, 256 * i));
    }
    if forall|k: int| 0 < k && 256 * k < s.len() ==> ascents_to(le, s, #[trigger] (256 * k) + 1) == 0 || descents_to(le, s, 256 * k + 1) <= 32 * k + 64 {
        assert forall|j: int| 1 <= j < n implies !#[trigger] hopeless(le, s, j) by {
            if j % 256 == 0 {
                let k = j / 256;
                assert(j == 256 * k);
                lemma_ascents_nonneg(le, s, j + 1);
                assert(ascents_to(le, s, 256 * k + 1) == 0 || descents_to(le, s, 256 * k + 1) <= 32 * k + 64);
            }
        }
    }
}

/// What is not a number: all bits of the exponent set, and one of the fraction; no
/// integer is.
pub proof fn what_is_not_a_number(x: F64Bits, y: F32Bits, a: i32, b: u32, c: i64, d: u64)
    ensures
        x.unordered() <==> x.0 / 0x10_0000_0000_0000 % 0x800 == 0x7FF && x.0 % 0x10_0000_0000_0000 != 0,
        y.unordered() <==> y.0 / 0x80_0000 % 0x100 == 0xFF && y.0 % 0x80_0000 != 0,
        !a.unordered() && !b.unordered() && !c.unordered() && !d.unordered(),
{
}

// ---- memory --------------------------------------------------------------------------------------

/// An array that is set up counts with its bytes towards what is held and towards the
/// most that was held at once; giving it back leaves as much held as before.
pub proof fn arrays_count_towards_what_is_held<T>(b: Books, n: nat)
    requires
        !too_large::<T>(n),
        b.held <= b.most,
    ensures
        taken::<T>(b, n).held == b.held + n * vstd::layout::size_of::<T>(),
        taken::<T>(b, n).most >= b.most,
        taken::<T>(b, n).most >= taken::<T>(b, n).held,
        taken::<T>(b, n).most == b.most || taken::<T>(b, n).most == taken::<T>(b, n).held,
        taken::<T>(b, n).asked == b.asked.push(n * vstd::layout::size_of::<T>()),
        given::<T>(taken::<T>(b, n), n).held == b.held,
        given::<T>(taken::<T>(b, n), n).most == taken::<T>(b, n).most,
        given::<T>(taken::<T>(b, n), n).asked == taken::<T>(b, n).asked,
{
    arrays_take_their_bytes::<T>(n);
}

// ---- words and byte strings ----------------------------------------------------------------------

/// Of two sequences of words the one with the smaller word in the first place where
/// they differ goes first, and one that goes on behind the end of the other goes
/// after it.
pub proof fn words_in_order(a: Seq<u64>, b: Seq<u64>, n: int)
    requires
        0 <= n <= a.len(),
        n <= b.len(),
        a.take(n) == b.take(n),
    ensures
        n < a.len() && n < b.len() && a[n] < b[n] ==> lex_le(a, b) && !lex_le(b, a),
        n == a.len() && n < b.len() ==> lex_le(a, b) && !lex_le(b, a),
        n == a.len() && n == b.len() ==> lex_le(a, b) && lex_le(b, a),
{
    assert forall|i: int| 0 <= i < n implies #[trigger] a[i] == b[i] by {
        assert(a[i] == a.take(n)[i] && b[i] == b.take(n)[i]);
    }
    assert(agree_below(a, b, n));
    lemma_lex_agree(a, b, n);
}

proof fn lemma_word_digit(s: Seq<u8>, j: nat)
    requires
        j < s.len(),
    ensures
        word(s) / pow(256, j) % 256 == s[s.len() - 1 - j],
        word(s) >= 0,
    decreases s.len(),
{
    lemma_pow0(256);
    let t = s.drop_last();
    if t.len() > 0 {
        lemma_word_digit(t, 0);
    }
    assert(word(t) >= 0);
    if j > 0 {
        let i = (j - 1) as nat;
        lemma_word_digit(t, i);
        lemma_pow_positive(256, i);
        lemma_pow_adds(256, 1, i);
        lemma_pow1(256);
        lemma_div_denominator(word(s), 256, pow(256, i));
        assert(word(s) / 256 == word(t));
    }
}

/// The key of a chunk holds seven bytes of the string, the first in front, with zeros
/// behind its end, and last how many of the seven the string has.
pub proof fn chunk_keys_hold_the_bytes(s: Seq<u8>, c: int, i: int)
    requires
        0 <= c,
        0 <= i < 7,
    ensures
        7 * c + i < s.len() ==> chunk_key_of(s, c) as int / pow(256, (7 - i) as nat) % 256 == s[7 * c + i],
        7 * c + i >= s.len() ==> chunk_key_of(s, c) as int / pow(256, (7 - i) as nat) % 256 == 0,
        7 * c + 7 <= s.len() ==> chunk_key_of(s, c) % 256 == 7,
        7 * c <= s.len() < 7 * c + 7 ==> chunk_key_of(s, c) % 256 == s.len() - 7 * c,
        s.len() < 7 * c ==> chunk_key_of(s, c) % 256 == 0,
{
    lemma_chunk_key(s, c);
    let t = chunk_text(s, c);
    let u = t.push(chunk_valid(s, c) as u8);
    assert(u.drop_last() =~= t);
    assert(word(u) == chunk_key_of(s, c));
    lemma_word_digit(u, (7 - i) as nat);
    assert(u[i] == t[i]);
}

/// A comparison looks at the bytes up to the first that differs, and at that one.
pub proof fn comparisons_look_up_to_the_difference(a: Seq<u8>, b: Seq<u8>, off: int, n: int)
    requires
        0 <= off <= n,
        n <= a.len(),
        n <= b.len(),
        forall|i: int| off <= i < n ==> a[i] == b[i],
    ensures
        n < a.len() && n < b.len() && a[n] != b[n] ==> examined(a, b, off) == n - off + 1,
        n == a.len() || n == b.len() ==> examined(a, b, off) == n - off,
    decreases n - off,
{
    if off < n {
        comparisons_look_up_to_the_difference(a, b, off + 1, n);
    }
}

/// A chunk is loaded from the bytes that the string has behind its start, eight of
/// them at most.
pub proof fn chunks_are_loaded_from_the_string(len: int, c: int)
    requires
        0 <= len,
        0 <= c,
    ensures
        0 <= loaded(len, c) <= 8,
        7 * c < len ==> 7 * c + loaded(len, c) <= len,
        7 * c >= len ==> loaded(len, c) == 0,
        7 * c < len && loaded(len, c) < 8 ==> 7 * c + loaded(len, c) == len,
{
}

/// A record keeps the first bytes of a string, all of them up to what a slot holds.
pub proof fn records_keep_the_first_bytes(s: Seq<u8>)
    ensures
        kept(s).len() <= s.len(),
        kept(s) == s.take(kept(s).len() as int),
        s.len() <= 0xFFFF_FFFF ==> kept(s) == s,
        s.len() > 0xFFFF_FFFF ==> kept(s).len() == 0xFFFF_FFFF,
{
    assert(s.take(s.len() as int) =~= s);
}

// ---- shapes --------------------------------------------------------------------------------------

/// A leaf in the other direction is the same leaf otherwise, and turning every leaf
/// twice changes nothing.
pub proof fn reversing_turns_every_leaf(s: Seq<Part>, i: int)
    requires
        0 <= i < s.len(),
    ensures
        reversed_parts(s).len() == s.len(),
        reversed_parts(s)[i].desc != s[i].desc,
        reversed_parts(s)[i].bits == s[i].bits,
        reversed_parts(s)[i].bytes == s[i].bytes,
        reversed_parts(reversed_parts(s)) == s,
{
    assert(reversed_parts(reversed_parts(s)) =~= s);
}

/// Leaves that are repeated come again after as many as there are.
pub proof fn repeating_comes_round(s: Seq<Part>, count: nat, i: int)
    requires
        0 <= i < s.len() * count,
    ensures
        repeated(s, count).len() == s.len() * count,
        repeated(s, count)[i] == s[i % (s.len() as int)],
        repeated(s, 0).len() == 0,
        repeated(s, 1) == s,
    decreases count,
{
    let n = s.len() as int;
    assert(repeated(s, 0) + s =~= s);
    reveal_with_fuel(repeated, 2);
    lemma_repeated_len(s, count);
    assert(count > 0) by (nonlinear_arith)
        requires
            0 < s.len() * count,
    ;
    lemma_repeated_len(s, (count - 1) as nat);
    assert(n * count == n * (count - 1) + n) by (nonlinear_arith);
    let m = n * (count - 1);
    if i < m {
        repeating_comes_round(s, (count - 1) as nat, i);
    } else {
        assert(repeated(s, count)[i] == s[i - m]);
        assert(i % n == i - m) by {
            vstd::arithmetic::div_mod::lemma_fundamental_div_mod_converse(i, n, count - 1, i - m);
        }
    }
}

pub(crate) proof fn lemma_repeated_len(s: Seq<Part>, count: nat)
    ensures
        repeated(s, count).len() == s.len() * count,
    decreases count,
{
    if count > 0 {
        lemma_repeated_len(s, (count - 1) as nat);
        assert(s.len() * count == s.len() * (count - 1) + s.len()) by (nonlinear_arith);
    } else {
        assert(s.len() * 0 == 0) by (nonlinear_arith);
    }
}

/// The width of leaves is that of the first and that of the others, and turning them
/// changes no width; there is no string where none of the leaves is one.
pub proof fn widths_add_up(a: Seq<Part>, b: Seq<Part>, p: Part)
    ensures
        width_sum(Seq::empty()) == 0,
        width_sum(seq![p]) == p.bits,
        width_sum(a + b) == width_sum(a) + width_sum(b),
        width_sum(reversed_parts(a)) == width_sum(a),
        none_bytes(a + b) <==> none_bytes(a) && none_bytes(b),
        none_bytes(seq![p]) <==> !p.bytes,
    decreases a.len() + b.len(),
{
    reveal_with_fuel(width_sum, 2);
    assert(seq![p].drop_last() =~= Seq::<Part>::empty());
    if b.len() > 0 {
        widths_add_up(a, b.drop_last(), p);
        assert((a + b).drop_last() =~= a + b.drop_last());
    } else {
        assert(a + b =~= a);
        if a.len() > 0 {
            widths_add_up(a.drop_last(), b, p);
            assert(reversed_parts(a).drop_last() =~= reversed_parts(a.drop_last()));
        }
    }
    if none_bytes(a) && none_bytes(b) {
        assert forall|i: int| 0 <= i < (a + b).len() implies !(#[trigger] (a + b)[i]).bytes by {
            if i < a.len() {
                assert((a + b)[i] == a[i]);
            } else {
                assert((a + b)[i] == b[i - a.len()]);
            }
        }
    }
    if none_bytes(a + b) {
        assert forall|i: int| 0 <= i < a.len() implies !(#[trigger] a[i]).bytes by {
            assert((a + b)[i] == a[i]);
        }
        assert forall|i: int| 0 <= i < b.len() implies !(#[trigger] b[i]).bytes by {
            assert((a + b)[i + a.len()] == b[i]);
        }
    }
    assert(seq![p][0] == p);
}

/// The code of a leaf tells a fixed part from a string, and a string from one that is
/// reversed.
pub proof fn codes_tell_leaves_apart(p: Part)
    ensures
        kind_of(p) == 0 <==> !p.bytes,
        kind_of(p) == 1 <==> p.bytes && !p.desc,
        kind_of(p) == 2 <==> p.bytes && p.desc,
{
}

/// A shape holds up to 32 leaves as they are; of more it says that they are too many.
pub proof fn shapes_hold_their_leaves(shape: Shape, s: Seq<Part>)
    requires
        shape.describes(s),
    ensures
        s.len() <= 32 ==> shape.n == s.len() && shape.leaves() == s,
        s.len() > 32 ==> shape.n == 33,
{
}

/// Two keys compare as their order says: the same leaves are equal, and of two others
/// the one that goes before the other is less.
pub proof fn keys_compare_by_their_order(a: Seq<LeafModel>, b: Seq<LeafModel>)
    ensures
        key_ordering(a, b) == Ordering::Equal <==> a == b,
        key_ordering(a, b) == Ordering::Less <==> key_le(a, b) && !key_le(b, a),
        key_ordering(a, b) == Ordering::Greater <==> key_le(b, a) && !key_le(a, b),
        key_ordering(b, a) == match key_ordering(a, b) {
            Ordering::Less => Ordering::Greater,
            Ordering::Equal => Ordering::Equal,
            Ordering::Greater => Ordering::Less,
        },
{
    key_order_total(a, b);
    key_order_total(b, a);
}

/// The chunks of a string cover it and one byte more, so that the last is never full;
/// reversing a key twice gives it back, and reverses the order of two.
pub proof fn chunks_cover_the_string(len: int, j: u64, k: u64)
    requires
        0 <= len,
        j <= 0xFFFF_FFFF_FFFF_FF07,
        k <= 0xFFFF_FFFF_FFFF_FF07,
    ensures
        len < 7 * chunk_count(len) <= len + 7,
        reversed_key(reversed_key(k)) == k,
        (reversed_key(j) <= reversed_key(k)) == (k <= j),
        reversed_key(0) == 0xFFFF_FFFF_FFFF_FF07,
{
}

/// Input in order, and input of which no element is greater than one before it, is
/// recognised; what is recognised otherwise has descents for a sixteenth of its elements
/// at most.
pub proof fn ordered_input_is_recognised<T>(le: spec_fn(T, T) -> bool, s: Seq<T>, small: bool)
    requires
        total_preorder(le),
    ensures
        (forall|i: int, j: int| 0 <= i <= j < s.len() ==> le(#[trigger] s[i], #[trigger] s[j])) ==> recognised(le, s, small) && in_turn(le, s),
        (forall|i: int, j: int| 0 <= i <= j < s.len() ==> le(#[trigger] s[j], #[trigger] s[i])) ==> recognised(le, s, small) && in_turn(le, s),
        recognised(le, s, small) && !in_turn(le, s) ==> small && 16 * descents_to(le, s, s.len() as int) <= s.len(),
{
    let n = s.len() as int;
    assert(s.take(n) =~= s);
    if sorted(le, s) {
        lemma_sorted_no_descents(le, s, n);
    }
    if forall|i: int, j: int| 0 <= i <= j < s.len() ==> le(#[trigger] s[j], #[trigger] s[i]) {
        lemma_falls(le, s, n);
    }
    if descents_to(le, s, n) == 0 || ascents_to(le, s, n) == 0 {
        assert forall|i: int| 1 <= i < n implies !#[trigger] hopeless(le, s, i) by {
            lemma_counts_grow(le, s, i + 1, n);
        }
    }
    if descents_to(le, s, n) == 0 {
        lemma_no_descents(le, s, n);
    }
    lemma_descents_nonneg(le, s, n);
    lemma_ascents_nonneg(le, s, n);
}

} // verus!
