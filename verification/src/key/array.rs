//! Arrays of keys: the leaves of the elements, one element after the other.
use crate::key::{
    key_le, key_ordering, lemma_key_add, lemma_shaped_add, lemma_turned_add, shaped, turned, Key,
    LeafModel, PartSink,
};
use crate::key::slots::{
    capped, kinds_of, lemma_capped_add, lemma_kinds_add, slot_of, Leaf, SLOT_MAX, SlotModel,
    SlotTree,
};
use crate::shape::{repeated, MAX_PARTS, Part, Shape};
use core::cmp::Ordering;
use vstd::prelude::*;

verus! {

/// `f(0)`, `f(1)`, .. up to `f(n - 1)`, one after the other.
pub open spec fn strung<A>(f: spec_fn(int) -> Seq<A>, n: nat) -> Seq<A>
    decreases n,
{
    if n == 0 {
        Seq::empty()
    } else {
        strung(f, (n - 1) as nat) + f(n - 1)
    }
}

proof fn lemma_strung_same<A>(f: spec_fn(int) -> Seq<A>, g: spec_fn(int) -> Seq<A>, n: nat)
    requires
        forall|i: int| 0 <= i < n ==> #[trigger] f(i) == g(i),
    ensures
        strung(f, n) == strung(g, n),
    decreases n,
{
    if n > 0 {
        lemma_strung_same(f, g, (n - 1) as nat);
    }
}

/// Pieces of one length stand at its multiples.
proof fn lemma_strung_index<A>(f: spec_fn(int) -> Seq<A>, n: nat, w: nat, i: int, q: int)
    requires
        forall|j: int| 0 <= j < n ==> (#[trigger] f(j)).len() == w,
        0 <= i < n,
        0 <= q < w,
    ensures
        strung(f, n).len() == n * w,
        0 <= i * w + q < n * w,
        strung(f, n)[i * w + q] == f(i)[q],
    decreases n,
{
    let m = (n - 1) as nat;
    lemma_strung_len(f, m, w);
    lemma_strung_len(f, n, w);
    assert(f(m as int).len() == w);
    assert(i * w + q < n * w) by (nonlinear_arith)
        requires
            i + 1 <= n,
            q < w,
    ;
    assert(0 <= i * w) by (nonlinear_arith)
        requires
            0 <= i,
            0 <= w,
    ;
    if i < m {
        lemma_strung_index(f, m, w, i, q);
    }
}

proof fn lemma_strung_len<A>(f: spec_fn(int) -> Seq<A>, n: nat, w: nat)
    requires
        forall|j: int| 0 <= j < n ==> (#[trigger] f(j)).len() == w,
    ensures
        strung(f, n).len() == n * w,
    decreases n,
{
    if n > 0 {
        lemma_strung_len(f, (n - 1) as nat, w);
        assert(f(n - 1).len() == w);
        assert((n - 1) * w + w == n * w) by (nonlinear_arith);
    } else {
        assert(0 * w == 0) by (nonlinear_arith);
    }
}

/// One piece changed in one place.
proof fn lemma_strung_update<A>(f: spec_fn(int) -> Seq<A>, g: spec_fn(int) -> Seq<A>, n: nat, w: nat, i: int, q: int, v: A)
    requires
        forall|j: int| 0 <= j < n ==> (#[trigger] f(j)).len() == w,
        forall|j: int| 0 <= j < n && j != i ==> #[trigger] g(j) == f(j),
        0 <= i < n,
        0 <= q < w,
        g(i) == f(i).update(q, v),
    ensures
        strung(g, n) == strung(f, n).update(i * w + q, v),
    decreases n,
{
    let m = (n - 1) as nat;
    lemma_strung_index(f, n, w, i, q);
    lemma_strung_len(f, m, w);
    if i < m {
        lemma_strung_index(f, m, w, i, q);
        lemma_strung_update(f, g, m, w, i, q, v);
        assert(g(m as int) == f(m as int));
        assert(strung(g, n) =~= strung(f, n).update(i * w + q, v));
    } else {
        lemma_strung_same(f, g, m);
        assert(i * w == m * w);
        assert(strung(g, n) =~= strung(f, n).update(i * w + q, v));
    }
}

// ---- slots ---------------------------------------------------------------------------------------

/// The slots of an array of keys.
#[derive(Debug)]
pub struct SlotArray<S, const N: usize>(pub [S; N]);

impl<S: Copy, const N: usize> Clone for SlotArray<S, N> {
    fn clone(&self) -> (r: Self)
        ensures
            r == *self,
    {
        SlotArray(self.0)
    }
}

impl<S: Copy, const N: usize> Copy for SlotArray<S, N> {

}

/// The kinds of `n` keys of the given kinds.
pub open spec fn strung_kinds(k: Seq<bool>, n: nat) -> Seq<bool> {
    strung(|i: int| k, n)
}

impl<'a, S: SlotTree<'a>, const N: usize> SlotTree<'a> for SlotArray<S, N> {
    open spec fn kinds() -> Seq<bool> {
        capped(strung_kinds(S::kinds(), N as nat))
    }

    open spec fn slots(&self) -> Seq<SlotModel> {
        capped(strung(|i: int| self.0@[i].slots(), N as nat))
    }

    proof fn slots_fit(&self) {
        let f = |i: int| self.0@[i].slots();
        let g = |i: int| S::kinds();
        let w = S::kinds().len();
        let n = N as nat;
        assert forall|j: int| 0 <= j < n implies (#[trigger] f(j)).len() == w by {
            self.0@[j].slots_fit();
        }
        lemma_strung_len(f, n, w);
        lemma_strung_len(g, n, w);
        assert forall|p: int| 0 <= p < self.slots().len() implies (#[trigger] self.slots()[p] is Bytes) == Self::kinds()[p] && (self.slots()[p] matches SlotModel::Bytes(t) ==> t.len()
            <= SLOT_MAX) by {
            let (i, q) = lemma_place(p, n, w);
            lemma_strung_index(f, n, w, i, q);
            lemma_strung_index(g, n, w, i, q);
            self.0@[i].slots_fit();
            assert(self.slots()[p] == f(i)[q]);
        }
    }

    fn count() -> (r: usize) {
        let w: usize = S::count();
        let ghost g = |i: int| S::kinds();
        proof {
            lemma_strung_len(g, N as nat, w as nat);
        }
        let mut left: usize = N;
        let mut n: usize = 0;
        while left > 0 && n < MAX_PARTS && w > 0
            invariant
                left <= N,
                w <= MAX_PARTS,
                n == (N - left) * w,
                n < MAX_PARTS + MAX_PARTS,
            decreases left,
        {
            assert((N - left + 1) * w == (N - left) * w + w) by (nonlinear_arith);
            n += w;
            left -= 1;
        }
        proof {
            assert((N - left) * w <= N * w) by (nonlinear_arith)
                requires
                    0 <= left <= N,
                    0 <= w,
            ;
            if w == 0 {
                assert(N * w == 0) by (nonlinear_arith)
                    requires
                        w == 0,
                ;
            }
        }
        if n > MAX_PARTS {
            MAX_PARTS
        } else {
            n
        }
    }

    fn zero() -> (r: Self) {
        let z: S = S::zero();
        let r = SlotArray([z; N]);
        proof {
            let f = |i: int| r.0@[i].slots();
            let w = S::kinds().len();
            let n = N as nat;
            assert forall|j: int| 0 <= j < n implies (#[trigger] f(j)).len() == w by {
                r.0@[j].slots_fit();
            }
            lemma_strung_len(f, n, w);
            assert forall|p: int| 0 <= p < r.slots().len() implies #[trigger] r.slots()[p] == SlotModel::Fixed(0) || r.slots()[p] == SlotModel::Bytes(Seq::empty()) by {
                let (i, q) = lemma_place(p, n, w);
                lemma_strung_index(f, n, w, i, q);
                assert(r.0@[i] == z);
                assert(z.slots()[q] == SlotModel::Fixed(0) || z.slots()[q] == SlotModel::Bytes(Seq::empty()));
            }
        }
        r
    }

    fn leaf(&self, p: usize) -> (r: Leaf<'a>) {
        let w: usize = S::count();
        let ghost f = |i: int| self.0@[i].slots();
        let ghost n = N as nat;
        proof {
            assert forall|j: int| 0 <= j < n implies (#[trigger] f(j)).len() == w by {
                self.0@[j].slots_fit();
            }
            lemma_strung_len(f, n, w as nat);
            lemma_in_array(p as int, n, w as nat);
        }
        let i: usize = p / w;
        let q: usize = p % w;
        proof {
            lemma_strung_index(f, n, w as nat, i as int, q as int);
        }
        self.0[i].leaf(q)
    }

    fn set_leaf(&mut self, p: usize, v: Leaf<'a>) {
        let w: usize = S::count();
        let ghost before = self.0@;
        let ghost s = self.slots();
        let ghost f = |i: int| before[i].slots();
        let ghost n = N as nat;
        proof {
            assert forall|j: int| 0 <= j < n implies (#[trigger] f(j)).len() == w by {
                before[j].slots_fit();
            }
            lemma_strung_len(f, n, w as nat);
            lemma_in_array(p as int, n, w as nat);
        }
        let i: usize = p / w;
        let q: usize = p % w;
        let mut one: S = self.0[i];
        proof {
            one.slots_fit();
        }
        one.set_leaf(q, v);
        self.0[i] = one;
        proof {
            let g = |k: int| self.0@[k].slots();
            lemma_strung_index(f, n, w as nat, i as int, q as int);
            assert(s[p as int] == f(i as int)[q as int]);
            if (v is Bytes) == (s[p as int] is Bytes) {
                lemma_strung_update(f, g, n, w as nat, i as int, q as int, slot_of(v));
                assert(self.slots() =~= s.update(p as int, slot_of(v)));
            } else {
                lemma_strung_same(f, g, n);
            }
        }
    }
}

/// Which key a leaf is of, and which leaf of it.
proof fn lemma_place(p: int, n: nat, w: nat) -> (r: (int, int))
    requires
        0 <= p < n * w,
    ensures
        0 <= r.0 < n,
        0 <= r.1 < w,
        p == r.0 * w + r.1,
{
    lemma_in_array(p, n, w);
    (p / w as int, p % w as int)
}

proof fn lemma_in_array(p: int, n: nat, w: nat)
    requires
        0 <= p < n * w,
    ensures
        0 < w,
        0 <= p / (w as int) < n,
        0 <= p % (w as int) < w,
        p == (p / (w as int)) * w + p % (w as int),
{
    assert(w > 0) by (nonlinear_arith)
        requires
            0 <= p < n * w,
            w >= 0,
    ;
    vstd::arithmetic::div_mod::lemma_fundamental_div_mod(p, w as int);
    let (a, b) = (p / (w as int), w as int);
    assert(a * b == b * a) by (nonlinear_arith);
    assert(0 <= a) by (nonlinear_arith)
        requires
            a == p / b,
            p >= 0,
            b > 0,
    ;
    assert(a < n) by (nonlinear_arith)
        requires
            a * b <= p < n * b,
            b > 0,
    ;
}

// ---- keys ----------------------------------------------------------------------------------------

/// The leaves of the keys, one key after the other.
pub open spec fn strung_leaves<K: Key>(s: Seq<K>, n: nat) -> Seq<LeafModel> {
    strung(|i: int| s[i].leaves(), n)
}

proof fn lemma_strung_shaped<K: Key>(s: Seq<K>, n: nat)
    requires
        n <= s.len(),
    ensures
        shaped(strung_leaves(s, n), repeated(K::parts(), n)),
    decreases n,
{
    if n > 0 {
        let m = (n - 1) as nat;
        lemma_strung_shaped(s, m);
        s[m as int].leaves_shaped();
        lemma_shaped_add(strung_leaves(s, m), repeated(K::parts(), m), s[m as int].leaves(), K::parts());
    }
}

proof fn lemma_repeated_len(p: Seq<Part>, n: nat)
    ensures
        repeated(p, n).len() == n * p.len(),
    decreases n,
{
    if n > 0 {
        lemma_repeated_len(p, (n - 1) as nat);
        assert((n - 1) * p.len() + p.len() == n * p.len()) by (nonlinear_arith);
    } else {
        assert(0 * p.len() == 0) by (nonlinear_arith);
    }
}

proof fn lemma_repeated_index(p: Seq<Part>, n: nat, i: int)
    requires
        0 <= i < n * p.len(),
    ensures
        0 < p.len(),
        0 <= i % (p.len() as int) < p.len(),
        repeated(p, n).len() == n * p.len(),
        repeated(p, n)[i] == p[i % (p.len() as int)],
    decreases n,
{
    lemma_in_array(i, n, p.len());
    lemma_repeated_len(p, n);
    let m = (n - 1) as nat;
    lemma_repeated_len(p, m);
    if i < m * p.len() {
        lemma_repeated_index(p, m, i);
    } else {
        let (a, w) = (i / (p.len() as int), p.len() as int);
        assert(a == m) by (nonlinear_arith)
            requires
                a * w <= i < a * w + w,
                m * w <= i < m * w + w,
                w > 0,
        ;
    }
}

proof fn lemma_repeated_kinds(p: Seq<Part>, n: nat)
    ensures
        capped(strung_kinds(capped(kinds_of(p)), n)) == capped(kinds_of(repeated(p, n))),
    decreases n,
{
    if n > 0 {
        let m = (n - 1) as nat;
        lemma_repeated_kinds(p, m);
        let (a, b) = (strung_kinds(capped(kinds_of(p)), m), capped(kinds_of(p)));
        lemma_capped_add(a, b);
        lemma_kinds_add(repeated(p, m), p);
        assert(capped(b) =~= b);
    } else {
        assert(kinds_of(repeated(p, 0)) =~= Seq::<bool>::empty());
    }
}

/// The first key that differs decides.
proof fn lemma_strung_decides<K: Key>(a: Seq<K>, b: Seq<K>, n: nat, i: usize)
    requires
        n <= a.len(),
        n <= b.len(),
        i <= n,
        forall|j: int| 0 <= j < i ==> (#[trigger] a[j]).leaves() == b[j].leaves(),
        i < n ==> a[i as int].leaves() != b[i as int].leaves(),
    ensures
        i == n ==> strung_leaves(a, n) == strung_leaves(b, n),
        i < n ==> key_le(strung_leaves(a, n), strung_leaves(b, n)) == key_le(a[i as int].leaves(), b[i as int].leaves()) && strung_leaves(a, n) != strung_leaves(b, n),
    decreases n,
{
    if n > 0 {
        let m = (n - 1) as nat;
        let (x, y) = (a[m as int].leaves(), b[m as int].leaves());
        lemma_strung_shaped(a, m);
        lemma_strung_shaped(b, m);
        lemma_key_add(strung_leaves(a, m), x, strung_leaves(b, m), y);
        if i < m {
            lemma_strung_decides(a, b, m, i);
        } else {
            lemma_strung_same(|j: int| a[j].leaves(), |j: int| b[j].leaves(), m);
        }
    }
}

impl<K: Key, const N: usize> Key for [K; N] {
    type Slots<'a> = SlotArray<K::Slots<'a>, N>;

    open spec fn parts() -> Seq<Part> {
        repeated(K::parts(), N as nat)
    }

    open spec fn leaves(&self) -> Seq<LeafModel> {
        strung_leaves(self@, N as nat)
    }

    proof fn leaves_shaped(&self) {
        lemma_strung_shaped(self@, N as nat);
    }

    proof fn slots_shaped<'a>() {
        K::slots_shaped();
        lemma_repeated_kinds(K::parts(), N as nat);
    }

    fn shape() -> (r: Shape) {
        Shape::repeat(&K::shape(), N)
    }

    fn leaf_count() -> (r: usize) {
        let w: usize = K::leaf_count();
        let mut left: usize = N;
        let mut n: usize = 0;
        proof {
            lemma_repeated_len(K::parts(), N as nat);
            assert(N * w <= N * K::parts().len()) by (nonlinear_arith)
                requires
                    w <= K::parts().len(),
                    0 <= N,
            ;
        }
        while left > 0 && n < MAX_PARTS && w > 0
            invariant
                left <= N,
                w <= MAX_PARTS,
                n == (N - left) * w,
                n < MAX_PARTS + MAX_PARTS,
            decreases left,
        {
            assert((N - left + 1) * w == (N - left) * w + w) by (nonlinear_arith);
            n += w;
            left -= 1;
        }
        proof {
            let (p, m) = (K::parts().len() as int, N as int);
            assert((m - left) * w <= m * p) by (nonlinear_arith)
                requires
                    0 <= left <= m,
                    0 <= w <= p,
            ;
            if w == 0 {
                assert(m * p == 0) by (nonlinear_arith)
                    requires
                        p == 0,
                ;
            } else if left == 0 && p > MAX_PARTS && m > 0 {
                assert(m * w >= w && m * p >= p) by (nonlinear_arith)
                    requires
                        m >= 1,
                        w >= 0,
                        p >= 0,
                ;
            }
        }
        if n > MAX_PARTS {
            MAX_PARTS
        } else {
            n
        }
    }

    fn descending(p: usize) -> (r: bool) {
        let w: usize = K::leaf_count();
        proof {
            lemma_repeated_len(K::parts(), N as nat);
            lemma_in_array(p as int, N as nat, K::parts().len());
            lemma_repeated_index(K::parts(), N as nat, p as int);
            if K::parts().len() > MAX_PARTS {
                vstd::arithmetic::div_mod::lemma_small_mod(p as nat, w as nat);
                vstd::arithmetic::div_mod::lemma_small_mod(p as nat, K::parts().len());
            }
        }
        K::descending(p % w)
    }

    fn write_parts<'a, S: PartSink<'a>>(&'a self, flip: bool, sink: &mut S) {
        let ghost log = sink.log();
        let mut i: usize = 0;
        assert(log + turned(strung_leaves(self@, 0), flip) =~= log);
        while i < N
            invariant
                i <= N,
                sink.ready(),
                sink.log() == log + turned(strung_leaves(self@, i as nat), flip),
            decreases N - i,
        {
            let ghost before = strung_leaves(self@, i as nat);
            self[i].write_parts(flip, sink);
            i += 1;
            proof {
                lemma_turned_add(before, self@[i - 1].leaves(), flip);
                assert(sink.log() =~= log + turned(strung_leaves(self@, i as nat), flip));
            }
        }
    }

    fn cmp_key(&self, other: &Self) -> (r: Ordering) {
        let mut i: usize = 0;
        while i < N
            invariant
                i <= N,
                forall|j: int| 0 <= j < i ==> (#[trigger] self@[j]).leaves() == other@[j].leaves(),
            decreases N - i,
        {
            match self[i].cmp_key(&other[i]) {
                Ordering::Equal => {},
                c => {
                    proof {
                        lemma_arrays_decided(self, other, i);
                    }
                    return c;
                },
            }
            i += 1;
        }
        proof {
            lemma_arrays_decided(self, other, i);
        }
        Ordering::Equal
    }

    fn spare(&self) -> (r: u32) {
        0
    }

    fn from_radix(radix: u64, spare: u32) -> (r: Option<Self>) {
        None
    }
}

/// Key `i`.
pub open spec fn key_at<K>(s: Seq<K>, i: usize) -> K {
    s[i as int]
}

proof fn lemma_arrays_decided<K: Key, const N: usize>(a: &[K; N], b: &[K; N], i: usize)
    requires
        i <= N,
        forall|j: int| 0 <= j < i ==> (#[trigger] a@[j]).leaves() == b@[j].leaves(),
        i < N ==> key_at(a@, i).leaves() != key_at(b@, i).leaves(),
    ensures
        i == N ==> key_ordering(a.leaves(), b.leaves()) == Ordering::Equal,
        i < N ==> key_ordering(a.leaves(), b.leaves()) == key_ordering(key_at(a@, i).leaves(), key_at(b@, i).leaves()),
{
    lemma_arrays_lengths(a, b, i);
}

/// The first key that differs decides between two arrays.
pub proof fn lemma_arrays_lengths<K: Key, const N: usize>(a: &[K; N], b: &[K; N], i: usize)
    requires
        i <= N,
        forall|j: int| 0 <= j < i ==> (#[trigger] a@[j]).leaves() == b@[j].leaves(),
        i < N ==> key_at(a@, i).leaves() != key_at(b@, i).leaves(),
    ensures
        i == N ==> a.leaves() == b.leaves(),
        i < N ==> key_le(a.leaves(), b.leaves()) == key_le(key_at(a@, i).leaves(), key_at(b@, i).leaves()) && a.leaves() != b.leaves(),
{
    lemma_strung_decides(a@, b@, N as nat, i);
}

} // verus!
