//! brainsort: a stable sort for keys that map to an ordered integer: numbers,
//! strings, dates, ids. It avoids comparing keys wherever the key type allows it
//! and does less work when the input already has structure.
//!
//! Every sort is stable. Keys can be any integer, `bool`, `char`, the bit
//! pattern of a floating point number, `str`, `String`, `[u8]`, `Vec<u8>`, a
//! reference to or a box of those, a tuple or array of those, or `Desc` for a
//! reversed order; your own key type implements `Key`. Elements can be anything:
//! they are permuted once, after the keys were sorted.
//!
//! # How it sorts
//!
//! One pass over the keys comes first, before anything is built: it counts
//! descents and ascents and stops as soon as they prove the input unordered.
//! Sorted input returns at once; reversed input is reversed in place with equal
//! keys kept in their order; nearly sorted input (at most one descent in
//! sixteen) is fixed when the elements are at most 16 bytes, by pulling out the
//! few displaced elements, sorting them and merging them back.
//!
//! Everything else goes through records: an array of small records, one per
//! element, holding the radix form of the key and the original index. The
//! records are sorted by the core algorithm (a scout pass that picks between
//! reversal, merging a few runs, the displaced-element route and the radix
//! route; the radix route samples the keys, splits at the median, chooses a plan
//! per part and verifies it while counting), then the elements are permuted
//! once. Keys of up to 32 bits become 8-byte records, up to 64 bits 16-byte
//! records, a string a record with a borrow of it, anything else a composite
//! record sorted chunk by chunk.
//!
//! # Floating point
//!
//! `-0.0` and `+0.0` compare equal (and stay in input order); a NaN with the
//! sign bit clear sorts after `+inf`, one with it set before `-inf`, ordered by
//! payload.
//!
//! # Failure, limits
//!
//! - **Allocation fails.** The sort completes anyway through the standard
//!   library's stable sort with the same order.
//! - **Limits.** At most 2^32 - 1 elements per call and strings shorter than
//!   2^32 bytes; beyond either the call goes to the standard library's stable
//!   sort.
use crate::api::{sort_by_key_impl, sort_by_sign};
use crate::compare::{
    answers, comparator_follows, comparator_takes, may_ask, ordering_of, sign_follows, sign_of,
    Compare,
};
use crate::infer::sort_by_sign_inferred;
use crate::key::{by_leaves, LeafModel};
use crate::memory::DefaultAlloc;
use crate::order::stable_sort_of;
use crate::project::{borrows, computes, ByRef, ByVal, Identity, Proj};
use crate::shape::MAX_PARTS;
pub use crate::infer::PlainBytes;
pub use crate::key::compose::{desc, Desc};
pub use crate::key::Key;
pub use crate::memory::{release_memory, set_memory_cache_limit};
use core::cmp::Ordering;
use core::marker::PhantomData;
use vstd::prelude::*;

pub mod algorithm;
pub mod api;
pub mod bench;
pub mod bits;
pub mod compare;
pub mod compsort;
pub mod cpu;
pub mod gather;
pub mod infer;
pub mod key;
pub mod laws;
pub mod less;
pub mod memory;
pub mod mergesort;
pub mod order;
pub mod permute;
pub mod project;
pub mod radix;
pub mod record;
pub mod shape;
pub mod text;
pub mod view;
pub mod window_laws;

verus! {

/// The version of the crate.
pub const VERSION: &'static str = "1.1.0";

/// Sorts the slice by the elements themselves. Stable.
pub fn sort<T: Key>(v: &mut [T])
    requires
        1 <= T::parts().len() <= MAX_PARTS,
    ensures
        stable_sort_of(by_leaves(|x: T| x.leaves()), old(v)@, final(v)@),
{
    proof {
        let f = |x: T| x.leaves();
        assert(Identity.gives(f));
        assert(Identity.follows(by_leaves(f)));
    }
    let _ = sort_by_key_impl(v, &Identity, DefaultAlloc::new());
}

/// Sorts the slice by a key computed from each element. Stable.
pub fn sort_by_key<T, K: Key, F: Fn(&T) -> K>(v: &mut [T], f: F)
    requires
        1 <= K::parts().len() <= MAX_PARTS,
        forall|i: int| 0 <= i < old(v)@.len() ==> call_requires(f, (&#[trigger] old(v)@[i],)),
        exists|k: spec_fn(T) -> Seq<LeafModel>| #[trigger] computes(f, k),
    ensures
        forall|k: spec_fn(T) -> Seq<LeafModel>| #[trigger] computes(f, k) ==> stable_sort_of(by_leaves(k), old(v)@, final(v)@),
{
    let proj: ByVal<F, K> = ByVal(f, PhantomData);
    let ghost s = v@;
    proof {
        let k = choose|k: spec_fn(T) -> Seq<LeafModel>| #[trigger] computes(f, k);
        assert(proj.gives(k));
        assert forall|i: int| 0 <= i < s.len() implies proj.asks(#[trigger] s[i]) by {}
    }
    let _ = sort_by_key_impl(v, &proj, DefaultAlloc::new());
    proof {
        assert forall|k: spec_fn(T) -> Seq<LeafModel>| #[trigger] computes(f, k) implies stable_sort_of(by_leaves(k), s, v@) by {
            assert(proj.follows(by_leaves(k)));
        }
    }
}

/// Sorts the slice by a key borrowed from each element (a string field, say).
/// Stable.
pub fn sort_by_key_ref<T, K: Key + ?Sized, F: Fn(&T) -> &K>(v: &mut [T], f: F)
    requires
        1 <= K::parts().len() <= MAX_PARTS,
        forall|i: int| 0 <= i < old(v)@.len() ==> call_requires(f, (&#[trigger] old(v)@[i],)),
        exists|k: spec_fn(T) -> Seq<LeafModel>| #[trigger] borrows(f, k),
    ensures
        forall|k: spec_fn(T) -> Seq<LeafModel>| #[trigger] borrows(f, k) ==> stable_sort_of(by_leaves(k), old(v)@, final(v)@),
{
    let proj: ByRef<F, K> = ByRef(f, PhantomData);
    let ghost s = v@;
    proof {
        let k = choose|k: spec_fn(T) -> Seq<LeafModel>| #[trigger] borrows(f, k);
        assert(proj.gives(k));
        assert forall|i: int| 0 <= i < s.len() implies proj.asks(#[trigger] s[i]) by {}
    }
    let _ = sort_by_key_impl(v, &proj, DefaultAlloc::new());
    proof {
        assert forall|k: spec_fn(T) -> Seq<LeafModel>| #[trigger] borrows(f, k) implies stable_sort_of(by_leaves(k), s, v@) by {
            assert(proj.follows(by_leaves(k)));
        }
    }
}

/// Sorts the slice by a comparator. Stable. Sorted, reversed and nearly sorted
/// input is handled as the key sorts do; long natural runs are merged as they are,
/// and everything else is the standard library's `slice::sort_by`.
pub fn sort_by<T, F: Fn(&T, &T) -> Ordering>(v: &mut [T], f: F)
    requires
        comparator_takes(f, old(v)@),
        exists|le: spec_fn(T, T) -> bool| #[trigger] comparator_follows(f, le),
    ensures
        forall|le: spec_fn(T, T) -> bool| #[trigger] comparator_follows(f, le) ==> stable_sort_of(le, old(v)@, final(v)@),
{
    let ghost s = v@;
    let g: &F = &f;
    let sign = |a: &T, b: &T| -> (r: i32)
        requires
            may_ask(g, a, b),
        ensures
            answers(g, a, b, r),
        {
            match (*g)(a, b) {
                Ordering::Less => -1,
                Ordering::Equal => 0,
                Ordering::Greater => 1,
            }
        };
    proof {
        assert forall|le: spec_fn(T, T) -> bool| #[trigger] comparator_follows(f, le) implies sign_follows(sign, le) by {
            assert forall|x: T, y: T, r: i32| #[trigger] call_ensures(sign, (&x, &y), r) implies (r < 0 <==> !le(y, x)) && (r > 0 <==> !le(x, y)) by {
                let o = choose|o: Ordering| #[trigger] call_ensures(f, (&x, &y), o) && r == sign_of(o);
                assert(o == ordering_of(le, x, y));
                assert(le(x, y) || le(y, x));
            }
        }
        let le = choose|le: spec_fn(T, T) -> bool| #[trigger] comparator_follows(f, le);
        assert(sign_follows(sign, le));
        assert forall|i: int, j: int| 0 <= i < s.len() && 0 <= j < s.len() implies call_requires(sign, (&#[trigger] s[i], &#[trigger] s[j])) by {
            assert(call_requires(f, (&s[i], &s[j])));
            assert(may_ask(g, &s[i], &s[j]));
        }
    }
    sort_by_sign(v, sign, DefaultAlloc::new());
}

/// Sorts the slice by a comparator whose key is inferred. Stable, with the result
/// of `sort_by`: from 4,096 elements on, a window of the element whose order
/// agrees with a sample of the comparator's answers is sorted by as a key, and the
/// result is checked with one more comparator pass.
pub fn sort_by_inferred<T: PlainBytes, F: Fn(&T, &T) -> Ordering>(v: &mut [T], f: F)
    requires
        comparator_takes(f, old(v)@),
        exists|le: spec_fn(T, T) -> bool| #[trigger] comparator_follows(f, le),
    ensures
        forall|le: spec_fn(T, T) -> bool| #[trigger] comparator_follows(f, le) ==> stable_sort_of(le, old(v)@, final(v)@),
{
    let ghost s = v@;
    let g: &F = &f;
    let sign = |a: &T, b: &T| -> (r: i32)
        requires
            may_ask(g, a, b),
        ensures
            answers(g, a, b, r),
        {
            match (*g)(a, b) {
                Ordering::Less => -1,
                Ordering::Equal => 0,
                Ordering::Greater => 1,
            }
        };
    proof {
        assert forall|le: spec_fn(T, T) -> bool| #[trigger] comparator_follows(f, le) implies sign_follows(sign, le) by {
            assert forall|x: T, y: T, r: i32| #[trigger] call_ensures(sign, (&x, &y), r) implies (r < 0 <==> !le(y, x)) && (r > 0 <==> !le(x, y)) by {
                let o = choose|o: Ordering| #[trigger] call_ensures(f, (&x, &y), o) && r == sign_of(o);
                assert(o == ordering_of(le, x, y));
                assert(le(x, y) || le(y, x));
            }
        }
        let le = choose|le: spec_fn(T, T) -> bool| #[trigger] comparator_follows(f, le);
        assert(sign_follows(sign, le));
        assert forall|i: int, j: int| 0 <= i < s.len() && 0 <= j < s.len() implies call_requires(sign, (&#[trigger] s[i], &#[trigger] s[j])) by {
            assert(call_requires(f, (&s[i], &s[j])));
            assert(may_ask(g, &s[i], &s[j]));
        }
    }
    sort_by_sign_inferred(v, sign, DefaultAlloc::new());
}

} // verus!
