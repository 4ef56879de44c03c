//! How the key of an element is obtained: the element itself, a borrow of it,
//! or a value computed from it.
use crate::compare::{index_le, Compare, IndexOrder};
use crate::key::{
    by_leaves, key_le, key_order_total, lemma_by_leaves_total, part_of, Key, LeafModel,
};
use crate::key::number::one_fixed;
use crate::less::Less;
use crate::view::{alloc_array, free_array, space, Alloc, AllocError, Hooks, Note};
use core::cmp::Ordering;
use vstd::prelude::*;

verus! {

/// How the key of an element is obtained.
pub trait Proj<T>: Compare<T> {
    /// The key type.
    type K: Key + ?Sized;

    /// What the keys live in while they are sorted: nothing where they are
    /// borrowed from the elements, the keys where they are computed.
    type Store;

    /// Whether every key of an element `x` has the leaves `f(x)`.
    spec fn gives(&self, f: spec_fn(T) -> Seq<LeafModel>) -> bool;

    /// Whether a key may be asked of `x`.
    spec fn asks(&self, x: T) -> bool;

    /// The store serves the elements `s`.
    spec fn serves(&self, s: Seq<T>, st: Self::Store) -> bool;

    /// The orders by key are what the projection follows as a comparison.
    proof fn gives_follows(&self)
        ensures
            forall|le: spec_fn(T, T) -> bool|
                #[trigger] self.follows(le) <==> exists|f: spec_fn(T) -> Seq<LeafModel>| #[trigger] self.gives(f) && le == by_leaves(f),
            forall|x: T, y: T| #[trigger] self.takes(x, y) <==> self.asks(x) && self.asks(y),
    ;

    /// The memory that the store of `n` elements takes.
    spec fn room(n: nat) -> nat;

    /// Sets the store up.
    fn store<M: Alloc>(&self, v: &[T], mem: &mut M) -> (r: Result<Self::Store, AllocError>)
        requires
            forall|i: int| 0 <= i < v@.len() ==> self.asks(#[trigger] v@[i]),
        ensures
            r matches Ok(st) ==> self.serves(v@, st) && final(mem).refusals() == old(mem).refusals(),
            r is Ok ==> final(mem).held() == old(mem).held() + Self::room(v@.len()),
            r is Err ==> final(mem).refusals() > old(mem).refusals() && final(mem).held() == old(mem).held(),
    ;

    /// Gives the store of `n` elements back.
    fn give_back<M: Alloc>(st: Self::Store, n: usize, mem: &mut M)
        requires
            Self::room(n as nat) <= old(mem).held(),
        ensures
            final(mem).refusals() == old(mem).refusals(),
            final(mem).held() == old(mem).held() - Self::room(n as nat),
    ;

    /// `x` has a key with these leaves and this spare word; of a key that is no
    /// element nothing is said.
    spec fn stands(x: T, leaves: Seq<LeafModel>, spare: u32) -> bool;

    /// The key of element `i`.
    fn key<'a>(&self, v: &'a [T], st: &'a Self::Store, i: usize) -> (r: &'a Self::K)
        requires
            i < v@.len(),
            self.asks(v@[i as int]),
            self.serves(v@, *st),
        ensures
            forall|f: spec_fn(T) -> Seq<LeafModel>| #[trigger] self.gives(f) ==> r.leaves() == f(v@[i as int]),
            Self::stands(v@[i as int], r.leaves(), r.spare_word()),
    ;

    /// Whether a radix value and a spare word give the element back.
    spec fn restores() -> bool;

    /// The element of a radix value and a spare word, where the elements are
    /// the keys and these give them back.
    fn restore(radix: u64, spare: u32) -> (r: Option<T>)
        ensures
            Self::restores() ==> forall|x: T, bits: u8| #[trigger] Self::stands(x, one_fixed(bits, radix), spare) ==> r == Some(x),
            !Self::restores() ==> r is None,
    ;
}

/// Positions compared by the keys that a store holds of the elements there.
pub struct StoredOrder<'a, T, P: Proj<T>> {
    /// The elements.
    pub v: &'a [T],
    /// Their keys.
    pub st: &'a P::Store,
    /// How the keys are obtained.
    pub proj: &'a P,
}

impl<'a, T, P: Proj<T>> Less<u32> for StoredOrder<'a, T, P> {
    open spec fn follows(&self, le: spec_fn(u32, u32) -> bool) -> bool {
        exists|of: spec_fn(T, T) -> bool| #[trigger] self.proj.follows(of) && le == index_le(of, self.v@)
    }

    open spec fn accepts(&self, x: u32) -> bool {
        &&& x < self.v@.len()
        &&& self.proj.serves(self.v@, *self.st)
        &&& forall|i: int| 0 <= i < self.v@.len() ==> self.proj.asks(#[trigger] self.v@[i])
    }

    open spec fn tells(&self) -> bool {
        false
    }

    open spec fn notes(&self, a: u32, b: u32, less: bool) -> Seq<Note> {
        Seq::empty()
    }

    proof fn follows_total(&self, le: spec_fn(u32, u32) -> bool) {
        let o = IndexOrder { v: self.v, c: self.proj };
        let of = choose|of: spec_fn(T, T) -> bool| #[trigger] self.proj.follows(of) && le == index_le(of, self.v@);
        assert(o.c.follows(of) && le == index_le(of, o.v@));
        assert(Less::<u32>::follows(&o, le));
        Less::<u32>::follows_total(&o, le);
    }

    fn less(&self, a: u32, b: u32) -> (r: bool) {
        let c: i32 = order_keys(self.proj.key(self.v, self.st, a as usize), self.proj.key(self.v, self.st, b as usize));
        proof {
            self.proj.gives_follows();
            assert forall|le: spec_fn(u32, u32) -> bool| #[trigger] self.follows(le) implies (c < 0) == !le(b, a) by {
                let of = choose|of: spec_fn(T, T) -> bool| #[trigger] self.proj.follows(of) && le == index_le(of, self.v@);
                let f = choose|f: spec_fn(T) -> Seq<LeafModel>| #[trigger] self.proj.gives(f) && of == by_leaves(f);
                assert(of(self.v@[b as int], self.v@[a as int]) == key_le(f(self.v@[b as int]), f(self.v@[a as int])));
            }
        }
        c < 0
    }

    fn less_seen<H: Hooks>(&self, a: u32, b: u32, hooks: &mut H) -> (r: bool) {
        let r = self.less(a, b);
        hooks.on_compare(r);
        r
    }
}

/// The elements are the keys.
pub struct Identity;

impl<T: Key> Compare<T> for Identity {
    open spec fn follows(&self, le: spec_fn(T, T) -> bool) -> bool {
        le == by_leaves(|x: T| x.leaves())
    }

    open spec fn takes(&self, x: T, y: T) -> bool {
        true
    }

    open spec fn loads(&self, a: T, b: T) -> Option<u64> {
        None
    }

    fn note_bytes<H: Hooks>(&self, a: &T, b: &T, hooks: &mut H) {
    }

    proof fn follows_total(&self, le: spec_fn(T, T) -> bool) {
        lemma_by_leaves_total(|x: T| x.leaves());
    }

    fn order(&self, a: &T, b: &T) -> (r: i32) {
        order_keys(a, b)
    }
}

/// Compares two keys: negative if `a` goes before `b`, positive if `b` goes
/// before `a`.
pub fn order_keys<K: Key + ?Sized>(a: &K, b: &K) -> (r: i32)
    ensures
        -1 <= r <= 1,
        r < 0 <==> !key_le(b.leaves(), a.leaves()),
        r > 0 <==> !key_le(a.leaves(), b.leaves()),
{
    proof {
        key_order_total(a.leaves(), b.leaves());
    }
    match a.cmp_key(b) {
        Ordering::Less => -1,
        Ordering::Equal => 0,
        Ordering::Greater => 1,
    }
}

impl<T: Key> Proj<T> for Identity {
    type K = T;

    type Store = ();

    open spec fn gives(&self, f: spec_fn(T) -> Seq<LeafModel>) -> bool {
        f == (|x: T| x.leaves())
    }

    open spec fn asks(&self, x: T) -> bool {
        true
    }

    open spec fn serves(&self, s: Seq<T>, st: Self::Store) -> bool {
        true
    }

    proof fn gives_follows(&self) {
        assert(self.gives(|x: T| x.leaves()));
    }

    open spec fn room(n: nat) -> nat {
        0
    }

    fn store<M: Alloc>(&self, v: &[T], mem: &mut M) -> (r: Result<Self::Store, AllocError>) {
        Ok(())
    }

    fn give_back<M: Alloc>(st: Self::Store, n: usize, mem: &mut M) {
    }

    open spec fn stands(x: T, leaves: Seq<LeafModel>, spare: u32) -> bool {
        x.leaves() == leaves && x.spare_word() == spare
    }

    fn key<'a>(&self, v: &'a [T], st: &'a Self::Store, i: usize) -> (r: &'a Self::K) {
        &v[i]
    }

    open spec fn restores() -> bool {
        T::exact_fixed()
    }

    fn restore(radix: u64, spare: u32) -> (r: Option<T>) {
        let r: Option<T> = T::from_radix(radix, spare);
        proof {
            if T::exact_fixed() {
                assert forall|x: T, bits: u8| #[trigger] Self::stands(x, one_fixed(bits, radix), spare) implies r == Some(x) by {
                    x.leaves_shaped();
                    assert(part_of(x.leaves()[0]) == T::parts()[0]);
                }
            }
        }
        r
    }
}

// ---- key functions -------------------------------------------------------------------------------

/// Every key that `g` computes has the leaves that `f` says.
pub open spec fn computes<T, K: Key, G: Fn(&T) -> K>(g: G, f: spec_fn(T) -> Seq<LeafModel>) -> bool {
    forall|x: T, k: K| #[trigger] call_ensures(g, (&x,), k) ==> k.leaves() == f(x)
}

/// A key computed from the element.
pub struct ByVal<G, K>(pub G, pub core::marker::PhantomData<K>);

impl<T, K: Key, G: Fn(&T) -> K> Compare<T> for ByVal<G, K> {
    open spec fn follows(&self, le: spec_fn(T, T) -> bool) -> bool {
        exists|f: spec_fn(T) -> Seq<LeafModel>| #[trigger] computes::<T, K, G>(self.0, f) && le == by_leaves(f)
    }

    open spec fn takes(&self, x: T, y: T) -> bool {
        call_requires(self.0, (&x,)) && call_requires(self.0, (&y,))
    }

    open spec fn loads(&self, a: T, b: T) -> Option<u64> {
        None
    }

    fn note_bytes<H: Hooks>(&self, a: &T, b: &T, hooks: &mut H) {
    }

    proof fn follows_total(&self, le: spec_fn(T, T) -> bool) {
        let f = choose|f: spec_fn(T) -> Seq<LeafModel>| #[trigger] computes::<T, K, G>(self.0, f) && le == by_leaves(f);
        lemma_by_leaves_total(f);
    }

    fn order(&self, a: &T, b: &T) -> (r: i32) {
        let x: K = (self.0)(a);
        let y: K = (self.0)(b);
        proof {
            assert forall|le: spec_fn(T, T) -> bool| #[trigger] self.follows(le) implies le(*a, *b) == key_le(x.leaves(), y.leaves()) && le(*b, *a) == key_le(y.leaves(), x.leaves()) by {
                let f = choose|f: spec_fn(T) -> Seq<LeafModel>| #[trigger] computes::<T, K, G>(self.0, f) && le == by_leaves(f);
            }
        }
        order_keys(&x, &y)
    }
}

/// The computed keys of a slice.
pub open spec fn computed<T, K: Key, G: Fn(&T) -> K>(g: G, s: Seq<T>, keys: Seq<K>) -> bool {
    &&& keys.len() == s.len()
    &&& forall|i: int| 0 <= i < s.len() ==> call_ensures(g, (&#[trigger] s[i],), keys[i])
}

impl<T, K: Key, G: Fn(&T) -> K> Proj<T> for ByVal<G, K> {
    type K = K;

    type Store = Vec<K>;

    open spec fn gives(&self, f: spec_fn(T) -> Seq<LeafModel>) -> bool {
        computes::<T, K, G>(self.0, f)
    }

    open spec fn asks(&self, x: T) -> bool {
        call_requires(self.0, (&x,))
    }

    open spec fn serves(&self, s: Seq<T>, st: Self::Store) -> bool {
        computed::<T, K, G>(self.0, s, st@)
    }

    proof fn gives_follows(&self) {
        assert forall|le: spec_fn(T, T) -> bool| #[trigger] self.follows(le) implies exists|f: spec_fn(T) -> Seq<LeafModel>| #[trigger] self.gives(f) && le == by_leaves(f) by {
            let f = choose|f: spec_fn(T) -> Seq<LeafModel>| #[trigger] computes::<T, K, G>(self.0, f) && le == by_leaves(f);
            assert(self.gives(f));
        }
        assert forall|le: spec_fn(T, T) -> bool|
            (exists|f: spec_fn(T) -> Seq<LeafModel>| #[trigger] self.gives(f) && le == by_leaves(f)) implies #[trigger] self.follows(le) by {
            let f = choose|f: spec_fn(T) -> Seq<LeafModel>| #[trigger] self.gives(f) && le == by_leaves(f);
            assert(computes::<T, K, G>(self.0, f));
        }
    }

    open spec fn room(n: nat) -> nat {
        space::<K>(n)
    }

    fn store<M: Alloc>(&self, v: &[T], mem: &mut M) -> (r: Result<Self::Store, AllocError>) {
        let n: usize = v.len();
        let mut keys: Vec<K> = match alloc_array(mem, n) {
            Ok(k) => k,
            Err(e) => {
                return Err(e);
            },
        };
        let mut i: usize = 0;
        while i < n
            invariant
                i <= n == v@.len(),
                keys@.len() == i,
                forall|j: int| 0 <= j < n ==> self.asks(#[trigger] v@[j]),
                forall|j: int| 0 <= j < i ==> call_ensures(self.0, (&#[trigger] v@[j],), keys@[j]),
            decreases n - i,
        {
            assert(self.asks(v@[i as int]));
            let k: K = (self.0)(&v[i]);
            keys.push(k);
            i += 1;
        }
        Ok(keys)
    }

    fn give_back<M: Alloc>(st: Self::Store, n: usize, mem: &mut M) {
        free_array(mem, st, n);
    }

    open spec fn stands(x: T, leaves: Seq<LeafModel>, spare: u32) -> bool {
        true
    }

    fn key<'a>(&self, v: &'a [T], st: &'a Self::Store, i: usize) -> (r: &'a Self::K) {
        assert(call_ensures(self.0, (&v@[i as int],), st@[i as int]));
        &st[i]
    }

    open spec fn restores() -> bool {
        false
    }

    fn restore(radix: u64, spare: u32) -> (r: Option<T>) {
        None
    }
}

/// Every key that `g` borrows has the leaves that `f` says.
pub open spec fn borrows<T, K: Key + ?Sized, G: Fn(&T) -> &K>(g: G, f: spec_fn(T) -> Seq<LeafModel>) -> bool {
    forall|x: T, k: &K| #[trigger] call_ensures(g, (&x,), k) ==> k.leaves() == f(x)
}

/// A key borrowed from the element.
pub struct ByRef<G, K: ?Sized>(pub G, pub core::marker::PhantomData<K>);

impl<T, K: Key + ?Sized, G: Fn(&T) -> &K> Compare<T> for ByRef<G, K> {
    open spec fn follows(&self, le: spec_fn(T, T) -> bool) -> bool {
        exists|f: spec_fn(T) -> Seq<LeafModel>| #[trigger] borrows::<T, K, G>(self.0, f) && le == by_leaves(f)
    }

    open spec fn takes(&self, x: T, y: T) -> bool {
        call_requires(self.0, (&x,)) && call_requires(self.0, (&y,))
    }

    open spec fn loads(&self, a: T, b: T) -> Option<u64> {
        None
    }

    fn note_bytes<H: Hooks>(&self, a: &T, b: &T, hooks: &mut H) {
    }

    proof fn follows_total(&self, le: spec_fn(T, T) -> bool) {
        let f = choose|f: spec_fn(T) -> Seq<LeafModel>| #[trigger] borrows::<T, K, G>(self.0, f) && le == by_leaves(f);
        lemma_by_leaves_total(f);
    }

    fn order(&self, a: &T, b: &T) -> (r: i32) {
        let x: &K = (self.0)(a);
        let y: &K = (self.0)(b);
        proof {
            assert forall|le: spec_fn(T, T) -> bool| #[trigger] self.follows(le) implies le(*a, *b) == key_le(x.leaves(), y.leaves()) && le(*b, *a) == key_le(y.leaves(), x.leaves()) by {
                let f = choose|f: spec_fn(T) -> Seq<LeafModel>| #[trigger] borrows::<T, K, G>(self.0, f) && le == by_leaves(f);
            }
        }
        order_keys(x, y)
    }
}

impl<T, K: Key + ?Sized, G: Fn(&T) -> &K> Proj<T> for ByRef<G, K> {
    type K = K;

    type Store = ();

    open spec fn gives(&self, f: spec_fn(T) -> Seq<LeafModel>) -> bool {
        borrows::<T, K, G>(self.0, f)
    }

    open spec fn asks(&self, x: T) -> bool {
        call_requires(self.0, (&x,))
    }

    open spec fn serves(&self, s: Seq<T>, st: Self::Store) -> bool {
        true
    }

    proof fn gives_follows(&self) {
        assert forall|le: spec_fn(T, T) -> bool| #[trigger] self.follows(le) implies exists|f: spec_fn(T) -> Seq<LeafModel>| #[trigger] self.gives(f) && le == by_leaves(f) by {
            let f = choose|f: spec_fn(T) -> Seq<LeafModel>| #[trigger] borrows::<T, K, G>(self.0, f) && le == by_leaves(f);
            assert(self.gives(f));
        }
        assert forall|le: spec_fn(T, T) -> bool|
            (exists|f: spec_fn(T) -> Seq<LeafModel>| #[trigger] self.gives(f) && le == by_leaves(f)) implies #[trigger] self.follows(le) by {
            let f = choose|f: spec_fn(T) -> Seq<LeafModel>| #[trigger] self.gives(f) && le == by_leaves(f);
            assert(borrows::<T, K, G>(self.0, f));
        }
    }

    open spec fn room(n: nat) -> nat {
        0
    }

    fn store<M: Alloc>(&self, v: &[T], mem: &mut M) -> (r: Result<Self::Store, AllocError>) {
        Ok(())
    }

    fn give_back<M: Alloc>(st: Self::Store, n: usize, mem: &mut M) {
    }

    open spec fn stands(x: T, leaves: Seq<LeafModel>, spare: u32) -> bool {
        true
    }

    fn key<'a>(&self, v: &'a [T], st: &'a Self::Store, i: usize) -> (r: &'a Self::K) {
        (self.0)(&v[i])
    }

    open spec fn restores() -> bool {
        false
    }

    fn restore(radix: u64, spare: u32) -> (r: Option<T>) {
        None
    }
}

} // verus!
