//! The record of a sequence of fixed and byte-string parts, stored inline in
//! the structure of the key type.
use crate::key::{key_le_from, leaf_le, part_of, radix_fits, shaped, Key, LeafModel, PartSink};
use crate::key::slots::{capped, kept, slot_of, Leaf, SLOT_MAX, SlotModel, SlotTree};
use crate::record::{all_short, directed, lemma_one_chunk, low_ones, Record};
use crate::record::string::lemma_text_common;
use crate::shape::{MAX_PARTS, Part};
use crate::text::{
    bytes_le, bytes_order_total, examined, lemma_text_differs, loaded, same_below,
    str_chunk_bytes, str_chunk_key, str_chunk_key_desc, str_compare_from, str_examined,
    text_chunks, STR_CHUNK_BYTES,
};
use crate::view::{agree_below, lemma_lex_agree, lex_le, lex_le_from, Elem, RadixKey};
use vstd::arithmetic::power2::{lemma2_to64_rest, lemma_pow2_strictly_increases};
use vstd::arithmetic::logarithm::log;
use vstd::prelude::*;

verus! {

/// The chunks of one slot: one for a fixed part, those of the byte string
/// otherwise.
pub open spec fn slot_chunks(x: SlotModel, desc: bool) -> Seq<u64> {
    match x {
        SlotModel::Fixed(v) => seq![v],
        SlotModel::Bytes(t) => text_chunks(t, desc),
    }
}

/// The chunks of the slots from `p` on; `d` says which of them are reversed.
pub open spec fn chunks_from(s: Seq<SlotModel>, d: Seq<bool>, p: int) -> Seq<u64>
    decreases s.len() - p,
{
    if p >= s.len() {
        Seq::empty()
    } else {
        slot_chunks(s[p], d[p]) + chunks_from(s, d, p + 1)
    }
}

/// The chunks of the slots. A key without leaves has one chunk.
pub open spec fn comp_chunks(s: Seq<SlotModel>, d: Seq<bool>) -> Seq<u64> {
    if s.len() == 0 {
        seq![0]
    } else {
        chunks_from(s, d, 0)
    }
}

/// How many chunks the slots before `p` have.
pub open spec fn chunks_before(s: Seq<SlotModel>, d: Seq<bool>, p: int) -> int
    decreases p,
{
    if p <= 0 {
        0
    } else {
        chunks_before(s, d, p - 1) + slot_chunks(s[p - 1], d[p - 1]).len()
    }
}

/// The order of two slots of one kind.
pub open spec fn slot_le(x: SlotModel, y: SlotModel, desc: bool) -> bool {
    match (x, y) {
        (SlotModel::Fixed(v), SlotModel::Fixed(w)) => v <= w,
        (SlotModel::Bytes(t), SlotModel::Bytes(u)) => if desc {
            bytes_le(u, t)
        } else {
            bytes_le(t, u)
        },
        _ => true,
    }
}

/// The order of slots from `p` on: the first that differs decides.
pub open spec fn slots_le(a: Seq<SlotModel>, b: Seq<SlotModel>, d: Seq<bool>, p: int) -> bool
    decreases a.len() - p,
{
    if p >= a.len() {
        true
    } else if a[p] == b[p] {
        slots_le(a, b, d, p + 1)
    } else {
        slot_le(a[p], b[p], d[p])
    }
}

/// The slots are of the same kinds.
pub open spec fn same_kinds(a: Seq<SlotModel>, b: Seq<SlotModel>) -> bool {
    &&& a.len() == b.len()
    &&& forall|p: int| 0 <= p < a.len() ==> (#[trigger] a[p] is Bytes) == (b[p] is Bytes)
}

/// A common beginning does not matter.
proof fn lemma_lex_shift(x: Seq<u64>, u: Seq<u64>, v: Seq<u64>, i: int)
    requires
        0 <= i,
    ensures
        lex_le_from(x + u, x + v, x.len() + i) == lex_le_from(u, v, i),
    decreases u.len() - i,
{
    if i < u.len() && i < v.len() {
        lemma_lex_shift(x, u, v, i + 1);
    }
}

/// The first chunk in which two different slots differ: both have it, and it
/// orders them.
proof fn lemma_slot_differs(x: SlotModel, y: SlotModel, desc: bool) -> (c: int)
    requires
        (x is Bytes) == (y is Bytes),
        x != y,
    ensures
        0 <= c < slot_chunks(x, desc).len(),
        c < slot_chunks(y, desc).len(),
        agree_below(slot_chunks(x, desc), slot_chunks(y, desc), c),
        slot_chunks(x, desc)[c] != slot_chunks(y, desc)[c],
        slot_chunks(x, desc)[c] < slot_chunks(y, desc)[c] <==> slot_le(x, y, desc),
{
    match (x, y) {
        (SlotModel::Bytes(t), SlotModel::Bytes(u)) => lemma_text_differs(t, u, desc, 0),
        _ => 0,
    }
}

/// The chunks order composite records as their slots do.
proof fn lemma_slots_order(a: Seq<SlotModel>, b: Seq<SlotModel>, d: Seq<bool>, p: int)
    requires
        same_kinds(a, b),
        0 <= p,
    ensures
        lex_le(chunks_from(a, d, p), chunks_from(b, d, p)) == slots_le(a, b, d, p),
    decreases a.len() - p,
{
    if p < a.len() {
        let (x, y) = (slot_chunks(a[p], d[p]), slot_chunks(b[p], d[p]));
        let (u, v) = (chunks_from(a, d, p + 1), chunks_from(b, d, p + 1));
        if a[p] == b[p] {
            lemma_slots_order(a, b, d, p + 1);
            lemma_lex_shift(x, u, v, 0);
            lemma_lex_agree(x + u, x + v, x.len() as int);
        } else {
            let c = lemma_slot_differs(a[p], b[p], d[p]);
            lemma_lex_agree(x + u, y + v, c);
            assert((x + u)[c] == x[c] && (y + v)[c] == y[c]);
        }
    }
}

/// Where the chunks of slot `p` stand.
proof fn lemma_chunk_place(s: Seq<SlotModel>, d: Seq<bool>, p: int)
    requires
        0 <= p <= s.len(),
    ensures
        0 <= chunks_before(s, d, p),
        chunks_from(s, d, 0).len() == chunks_before(s, d, p) + chunks_from(s, d, p).len(),
        chunks_from(s, d, 0).skip(chunks_before(s, d, p)) == chunks_from(s, d, p),
        p < s.len() ==> forall|i: int|
            0 <= i < slot_chunks(s[p], d[p]).len() ==> chunks_from(s, d, 0)[chunks_before(s, d, p) + i] == #[trigger] slot_chunks(s[p], d[p])[i],
    decreases p,
{
    let all = chunks_from(s, d, 0);
    if p > 0 {
        lemma_chunk_place(s, d, p - 1);
        let x = slot_chunks(s[p - 1], d[p - 1]);
        let before = chunks_before(s, d, p - 1);
        assert(chunks_from(s, d, p - 1) == x + chunks_from(s, d, p));
        assert(all.skip(before + x.len()) =~= all.skip(before).skip(x.len() as int));
        assert((x + chunks_from(s, d, p)).skip(x.len() as int) =~= chunks_from(s, d, p));
    } else {
        assert(all.skip(0) =~= all);
    }
    if p < s.len() {
        let x = slot_chunks(s[p], d[p]);
        assert forall|i: int| 0 <= i < x.len() implies all[chunks_before(s, d, p) + i] == #[trigger] x[i] by {
            assert(all.skip(chunks_before(s, d, p))[i] == chunks_from(s, d, p)[i]);
        }
    }
}

/// Records whose chunks agree below a chunk of slot `p` have the same slots
/// before it, and agree in it below that chunk.
proof fn lemma_slots_agree(a: Seq<SlotModel>, b: Seq<SlotModel>, d: Seq<bool>, p: int, local: int)
    requires
        same_kinds(a, b),
        0 <= p <= a.len(),
        0 <= local,
        p < a.len() ==> local <= slot_chunks(a[p], d[p]).len(),
        p == a.len() ==> local == 0,
        agree_below(chunks_from(a, d, 0), chunks_from(b, d, 0), chunks_before(a, d, p) + local),
    ensures
        forall|i: int| 0 <= i < p ==> #[trigger] a[i] == b[i],
        chunks_before(a, d, p) == chunks_before(b, d, p),
        p < a.len() ==> agree_below(slot_chunks(a[p], d[p]), slot_chunks(b[p], d[p]), local) || a[p] == b[p],
    decreases p,
{
    let (x, y) = (chunks_from(a, d, 0), chunks_from(b, d, 0));
    lemma_chunk_place(a, d, p);
    if p > 0 {
        let l = slot_chunks(a[p - 1], d[p - 1]).len() as int;
        lemma_slots_agree(a, b, d, p - 1, l);
        if a[p - 1] != b[p - 1] {
            let c = lemma_slot_differs(a[p - 1], b[p - 1], d[p - 1]);
            assert(slot_chunks(a[p - 1], d[p - 1])[c] == slot_chunks(b[p - 1], d[p - 1])[c]);
        }
        lemma_chunk_place(b, d, p);
    }
    lemma_chunk_place(b, d, p);
    if p < a.len() {
        let (u, v) = (slot_chunks(a[p], d[p]), slot_chunks(b[p], d[p]));
        let at = chunks_before(a, d, p);
        let m = if local <= v.len() {
            local
        } else {
            v.len() as int
        };
        assert forall|i: int| 0 <= i < m implies #[trigger] u[i] == v[i] by {
            assert(x[at + i] == y[at + i]);
        }
        if local > v.len() {
            lemma_slot_whole(a[p], b[p], d[p]);
        }
    }
}

/// A slot whose chunks begin another's is the same slot.
proof fn lemma_slot_whole(x: SlotModel, y: SlotModel, desc: bool)
    requires
        (x is Bytes) == (y is Bytes),
        slot_chunks(y, desc).len() <= slot_chunks(x, desc).len(),
        forall|i: int| 0 <= i < slot_chunks(y, desc).len() ==> #[trigger] slot_chunks(x, desc)[i] == slot_chunks(y, desc)[i],
    ensures
        x == y,
{
    if x != y {
        let c = lemma_slot_differs(x, y, desc);
        assert(slot_chunks(x, desc)[c] == slot_chunks(y, desc)[c]);
    }
}

/// How many chunks there can be.
proof fn lemma_chunks_bound(s: Seq<SlotModel>, d: Seq<bool>, p: int)
    requires
        0 <= p <= s.len(),
        forall|i: int| 0 <= i < s.len() ==> ((#[trigger] s[i]) matches SlotModel::Bytes(t) ==> t.len() <= SLOT_MAX),
    ensures
        p <= chunks_before(s, d, p) <= p * 0x2492_4925,
    decreases p,
{
    if p > 0 {
        lemma_chunks_bound(s, d, p - 1);
        assert(s[p - 1] matches SlotModel::Bytes(t) ==> t.len() <= SLOT_MAX);
    }
}

// ---- the record ----------------------------------------------------------------------------------

/// A sequence of fixed and byte-string parts.
pub struct CompRec<'a, K: Key + ?Sized> {
    /// The leaves.
    pub slots: K::Slots<'a>,
    /// The original index.
    pub idx: u32,
}

impl<'a, K: Key + ?Sized> Clone for CompRec<'a, K> {
    fn clone(&self) -> (r: Self)
        ensures
            r == *self,
    {
        CompRec { slots: self.slots, idx: self.idx }
    }
}

impl<'a, K: Key + ?Sized> Copy for CompRec<'a, K> {

}

/// Which leaves are reversed.
pub open spec fn reversed_flags(parts: Seq<Part>) -> Seq<bool> {
    parts.map_values(|p: Part| p.desc)
}

impl<'a, K: Key + ?Sized> CompRec<'a, K> {
    /// What the slots hold.
    pub open spec fn held(&self) -> Seq<SlotModel> {
        self.slots.slots()
    }

    proof fn lemma_held(&self)
        ensures
            self.held().len() == capped(K::parts()).len(),
            forall|p: int| 0 <= p < self.held().len() ==> (#[trigger] self.held()[p] is Bytes) == K::parts()[p].bytes,
            forall|p: int| 0 <= p < self.held().len() ==> ((#[trigger] self.held()[p]) matches SlotModel::Bytes(t) ==> t.len() <= SLOT_MAX),
    {
        self.slots.slots_fit();
        K::slots_shaped();
    }

    /// Chunks of part `p`: one for a fixed part, `len / 7 + 1` for a string.
    fn chunks_of(&self, p: usize) -> (r: u64)
        requires
            p < self.held().len(),
        ensures
            r == slot_chunks(self.held()[p as int], K::parts()[p as int].desc).len(),
    {
        match self.slots.leaf(p) {
            Leaf::Fixed(_) => 1,
            Leaf::Bytes(b) => b.len() as u64 / STR_CHUNK_BYTES + 1,
        }
    }

    /// The part that owns chunk `chunk` of the element, and the chunk index
    /// within it; the number of parts behind the end.
    fn locate(&self, chunk: u64) -> (r: (usize, u64))
        ensures
            r.0 <= self.held().len(),
            r.0 < self.held().len() ==> chunk == chunks_before(self.held(), reversed_flags(K::parts()), r.0 as int) + r.1 && r.1 < slot_chunks(
                self.held()[r.0 as int],
                reversed_flags(K::parts())[r.0 as int],
            ).len(),
            r.0 == self.held().len() ==> r.1 == 0 && chunk >= chunks_before(self.held(), reversed_flags(K::parts()), r.0 as int),
    {
        let ghost s = self.held();
        let ghost d = reversed_flags(K::parts());
        let n: usize = K::leaf_count();
        proof {
            self.lemma_held();
        }
        let mut left: u64 = chunk;
        let mut p: usize = 0;
        while p < n
            invariant
                p <= n,
                n == s.len(),
                n == capped(K::parts()).len(),
                s == self.held(),
                d == reversed_flags(K::parts()),
                chunk == chunks_before(s, d, p as int) + left,
            decreases n - p,
        {
            let nc: u64 = self.chunks_of(p);
            if left < nc {
                return (p, left);
            }
            left -= nc;
            p += 1;
        }
        (n, 0)
    }

    /// The key of chunk `local` of part `p`.
    fn part_chunk_key(&self, p: usize, local: u64) -> (r: u64)
        requires
            p < self.held().len(),
            local < slot_chunks(self.held()[p as int], reversed_flags(K::parts())[p as int]).len(),
        ensures
            r == slot_chunks(self.held()[p as int], reversed_flags(K::parts())[p as int])[local as int],
    {
        proof {
            self.lemma_held();
        }
        match self.slots.leaf(p) {
            Leaf::Fixed(v) => v,
            Leaf::Bytes(b) => if K::descending(p) {
                str_chunk_key_desc(b, local)
            } else {
                str_chunk_key(b, local)
            },
        }
    }

    /// Compares part `p`, a string from byte `off` on.
    fn compare_part(&self, b: &Self, p: usize, off: u64) -> (r: i32)
        requires
            p < self.held().len(),
            self.held()[p as int] matches SlotModel::Bytes(t) ==> (b.held()[p as int] matches SlotModel::Bytes(u) ==> same_below(t, u, off as int) || t == u),
        ensures
            r < 0 <==> !slot_le(b.held()[p as int], self.held()[p as int], K::parts()[p as int].desc),
            r > 0 <==> !slot_le(self.held()[p as int], b.held()[p as int], K::parts()[p as int].desc),
            r == 0 <==> self.held()[p as int] == b.held()[p as int],
    {
        proof {
            self.lemma_held();
            b.lemma_held();
        }
        match (self.slots.leaf(p), b.slots.leaf(p)) {
            (Leaf::Fixed(x), Leaf::Fixed(y)) => if x < y {
                -1
            } else if x > y {
                1
            } else {
                0
            },
            (Leaf::Bytes(x), Leaf::Bytes(y)) => {
                proof {
                    bytes_order_total(x@, y@, 0);
                }
                let c: i32 = str_compare_from(x, y, off);
                if K::descending(p) {
                    -c
                } else {
                    c
                }
            },
            _ => 0,
        }
    }
}

proof fn lemma_comp_len<'a, K: Key + ?Sized>(x: CompRec<'a, K>)
    ensures
        x.chunks().len() == if x.held().len() == 0 {
            1
        } else {
            chunks_before(x.held(), reversed_flags(K::parts()), x.held().len() as int)
        },
        0 < x.chunks().len() < 0x10_0000_0000,
{
    x.lemma_held();
    let s = x.held();
    let d = reversed_flags(K::parts());
    lemma_chunk_place(s, d, s.len() as int);
    lemma_chunks_bound(s, d, s.len() as int);
}

/// Two records of one key type, and what their chunks say below `chunk`.
proof fn lemma_comp_agree<'a, K: Key + ?Sized>(a: CompRec<'a, K>, b: CompRec<'a, K>)
    ensures
        same_kinds(a.held(), b.held()),
{
    a.lemma_held();
    b.lemma_held();
    assert forall|p: int| 0 <= p < a.held().len() implies (#[trigger] a.held()[p] is Bytes) == (b.held()[p] is Bytes) by {
        assert((b.held()[p] is Bytes) == K::parts()[p].bytes);
    }
}

/// The bytes that the key of chunk `c` of the slots from `p` on is loaded from.
pub open spec fn slots_load(s: Seq<SlotModel>, d: Seq<bool>, p: int, c: int) -> int
    decreases s.len() - p,
{
    if p < 0 || p >= s.len() {
        0
    } else if c < slot_chunks(s[p], d[p]).len() {
        match s[p] {
            SlotModel::Bytes(t) => loaded(t.len() as int, c),
            SlotModel::Fixed(_) => 0,
        }
    } else {
        slots_load(s, d, p + 1, c - slot_chunks(s[p], d[p]).len())
    }
}

/// The bytes that a comparison looks at from byte `off` of slot `p` on, up to the
/// first slot that decides.
pub open spec fn part_seen(s: Seq<SlotModel>, t: Seq<SlotModel>, p: int, off: int) -> int
    decreases s.len() - p,
{
    if p < 0 || p >= s.len() {
        0
    } else {
        let here = match (s[p], t[p]) {
            (SlotModel::Bytes(x), SlotModel::Bytes(y)) => 2 * examined(x, y, off),
            _ => 0,
        };
        here + if s[p] == t[p] {
            part_seen(s, t, p + 1, 0)
        } else {
            0
        }
    }
}

/// The bytes that a comparison looks at from chunk `c` of the slots from `p` on.
pub open spec fn slots_seen(s: Seq<SlotModel>, t: Seq<SlotModel>, d: Seq<bool>, p: int, c: int) -> int
    decreases s.len() - p,
{
    if p < 0 || p >= s.len() {
        0
    } else if c < slot_chunks(s[p], d[p]).len() {
        part_seen(s, t, p, 7 * c)
    } else {
        slots_seen(s, t, d, p + 1, c - slot_chunks(s[p], d[p]).len())
    }
}

/// A chunk may be looked for from any slot before it.
proof fn lemma_slots_load(s: Seq<SlotModel>, t: Seq<SlotModel>, d: Seq<bool>, p: int, c: int)
    requires
        0 <= p <= s.len(),
        chunks_before(s, d, p) <= c,
    ensures
        slots_load(s, d, 0, c) == slots_load(s, d, p, c - chunks_before(s, d, p)),
        slots_seen(s, t, d, 0, c) == slots_seen(s, t, d, p, c - chunks_before(s, d, p)),
    decreases p,
{
    if p > 0 {
        lemma_slots_load(s, t, d, p - 1, c);
    }
}

impl<'a, K: Key + ?Sized> Elem for CompRec<'a, K> {
    type Key = u64;

    open spec fn chunks(&self) -> Seq<u64> {
        comp_chunks(self.held(), reversed_flags(K::parts()))
    }

    proof fn chunks_fit(&self) {
        lemma_comp_len(*self);
        0u64.word_fits();
        assert forall|c: int| 0 <= c < self.chunks().len() && <u64 as RadixKey>::BITS == 32 implies #[trigger] self.chunks()[c] <= 0xFFFF_FFFF by {
            self.chunks()[c].word_fits();
        }
    }

    proof fn chunks_end_together(a: Self, b: Self, c: int) {
        lemma_comp_agree(a, b);
        lemma_comp_len(a);
        lemma_comp_len(b);
        let n = a.held().len() as int;
        let d = reversed_flags(K::parts());
        if n > 0 {
            if a.chunks().len() == c + 1 {
                lemma_slots_agree(a.held(), b.held(), d, n, 0);
                assert(a.held() =~= b.held());
            }
            if b.chunks().len() == c + 1 {
                lemma_slots_agree(b.held(), a.held(), d, n, 0);
                assert(a.held() =~= b.held());
            }
        }
    }

    open spec fn has_chunks() -> bool {
        true
    }

    fn chunked() -> (r: bool) {
        true
    }

    fn less(a: Self, b: Self) -> (r: bool) {
        Self::compare_from(a, b, 0) < 0
    }

    fn compare(a: Self, b: Self) -> (r: i32) {
        Self::compare_from(a, b, 0)
    }

    /// Compares from chunk `chunk` on: `a` and `b` agree on every earlier chunk,
    /// so the chunk lies in the same part of both and the parts before it tie.
    fn compare_from(a: Self, b: Self, chunk: u64) -> (r: i32) {
        let ghost (s, t) = (a.held(), b.held());
        let ghost d = reversed_flags(K::parts());
        let n: usize = K::leaf_count();
        let (p0, local) = a.locate(chunk);
        proof {
            a.lemma_held();
            lemma_comp_agree(a, b);
            lemma_comp_len(a);
            lemma_comp_len(b);
            if n > 0 {
                lemma_slots_order(s, t, d, 0);
                lemma_slots_order(t, s, d, 0);
                lemma_slots_agree(s, t, d, p0 as int, local as int);
                if p0 < n {
                    if let (SlotModel::Bytes(x), SlotModel::Bytes(y)) = (s[p0 as int], t[p0 as int]) {
                        if x != y {
                            lemma_text_common(x, y, d[p0 as int], local as int);
                        }
                    }
                }
            } else {
                assert(s =~= t);
                lemma_one_chunk(0, 0);
            }
        }
        if p0 >= n {
            proof {
                if n > 0 {
                    lemma_slots_same(s, t, d, n as int);
                }
            }
            return 0;
        }
        let mut p: usize = p0;
        let mut off: u64 = local * STR_CHUNK_BYTES;
        while p < n
            invariant
                p0 <= p <= n,
                n == s.len(),
                n == capped(K::parts()).len(),
                s == a.held(),
                t == b.held(),
                d == reversed_flags(K::parts()),
                same_kinds(s, t),
                forall|i: int| 0 <= i < p ==> #[trigger] s[i] == t[i],
                p < n && s[p as int] is Bytes ==> (s[p as int] matches SlotModel::Bytes(x) && (t[p as int] matches SlotModel::Bytes(y) && (same_below(x, y, off as int) || x == y))),
                lex_le(a.chunks(), b.chunks()) == slots_le(s, t, d, 0),
                lex_le(b.chunks(), a.chunks()) == slots_le(t, s, d, 0),
            decreases n - p,
        {
            let c: i32 = a.compare_part(&b, p, off);
            proof {
                lemma_slots_skip(s, t, d, p as int);
                lemma_slots_skip(t, s, d, p as int);
            }
            if c != 0 {
                return c;
            }
            p += 1;
            off = 0;
        }
        proof {
            lemma_slots_same(s, t, d, n as int);
        }
        0
    }

    fn radix_key(a: Self, chunk: u64) -> (r: Self::Key) {
        let (p, local) = a.locate(chunk);
        proof {
            lemma_comp_len(a);
            if p < a.held().len() {
                lemma_chunk_place(a.held(), reversed_flags(K::parts()), p as int);
            }
        }
        if p < K::leaf_count() {
            proof {
                a.lemma_held();
            }
            a.part_chunk_key(p, local)
        } else {
            proof {
                a.lemma_held();
            }
            0
        }
    }

    fn chunk_ends(a: Self, chunk: u64) -> (r: bool) {
        let n: usize = K::leaf_count();
        let (p, local) = a.locate(chunk);
        let ghost s = a.held();
        let ghost d = reversed_flags(K::parts());
        proof {
            a.lemma_held();
            lemma_comp_len(a);
        }
        if p >= n {
            return true;
        }
        if p + 1 == n {
            proof {
                assert(chunks_before(s, d, n as int) == chunks_before(s, d, p as int) + slot_chunks(s[p as int], d[p as int]).len());
            }
            return local + 1 == a.chunks_of(p);
        }
        proof {
            reveal_with_fuel(chunks_before, 3);
            lemma_chunk_place(s, d, p + 2);
            lemma_chunk_place(s, d, s.len() as int);
            assert(chunks_before(s, d, p + 2) == chunks_before(s, d, p as int) + slot_chunks(s[p as int], d[p as int]).len() + slot_chunks(s[p + 1], d[p + 1]).len());
            assert(slot_chunks(s[p + 1], d[p + 1]).len() > 0);
        }
        false
    }

    open spec fn key_load(&self, chunk: int) -> int {
        slots_load(self.held(), reversed_flags(K::parts()), 0, chunk)
    }

    open spec fn compare_load(&self, other: &Self, chunk: int) -> int {
        slots_seen(self.held(), other.held(), reversed_flags(K::parts()), 0, chunk)
    }

    fn key_bytes(a: Self, chunk: u64) -> (r: u64) {
        let (p, local) = a.locate(chunk);
        proof {
            a.lemma_held();
            lemma_slots_load(a.held(), a.held(), reversed_flags(K::parts()), p as int, chunk as int);
        }
        if p < K::leaf_count() {
            match a.slots.leaf(p) {
                Leaf::Bytes(x) => str_chunk_bytes(x.len() as u64, local),
                Leaf::Fixed(_) => 0,
            }
        } else {
            0
        }
    }

    /// Every byte string that the comparison looks at, up to the first part that
    /// decides.
    fn compare_bytes(a: Self, b: Self, chunk: u64) -> (r: u64) {
        let ghost (s, t) = (a.held(), b.held());
        let n: usize = K::leaf_count();
        let (p0, local) = a.locate(chunk);
        proof {
            a.lemma_held();
            b.lemma_held();
            lemma_comp_agree(a, b);
            lemma_slots_load(s, t, reversed_flags(K::parts()), p0 as int, chunk as int);
        }
        let mut p: usize = p0;
        let mut off: u64 = local * STR_CHUNK_BYTES;
        let mut sum: u64 = 0;
        while p < n
            invariant
                p0 <= p <= n <= 32,
                n == s.len() == t.len(),
                n == capped(K::parts()).len(),
                s == a.held(),
                t == b.held(),
                same_kinds(s, t),
                sum <= 0x2_0000_0000 * p,
                sum + part_seen(s, t, p as int, off as int) == slots_seen(s, t, reversed_flags(K::parts()), 0, chunk as int),
            decreases n - p,
        {
            proof {
                a.lemma_held();
                b.lemma_held();
            }
            match (a.slots.leaf(p), b.slots.leaf(p)) {
                (Leaf::Bytes(x), Leaf::Bytes(y)) => {
                    let seen: u64 = str_examined(x, y, off);
                    sum = sum + 2 * seen;
                    proof {
                        bytes_order_total(x@, y@, 0);
                    }
                    if str_compare_from(x, y, 0) != 0 {
                        return sum;
                    }
                },
                (Leaf::Fixed(x), Leaf::Fixed(y)) => {
                    if x != y {
                        return sum;
                    }
                },
                _ => {},
            }
            p += 1;
            off = 0;
        }
        sum
    }
}

/// Slots that agree below `p` are ordered from there on.
proof fn lemma_slots_skip(a: Seq<SlotModel>, b: Seq<SlotModel>, d: Seq<bool>, p: int)
    requires
        a.len() == b.len(),
        0 <= p <= a.len(),
        forall|i: int| 0 <= i < p ==> #[trigger] a[i] == b[i],
    ensures
        slots_le(a, b, d, 0) == slots_le(a, b, d, p),
    decreases p,
{
    if p > 0 {
        lemma_slots_skip(a, b, d, p - 1);
        assert(a[p - 1] == b[p - 1]);
    }
}

/// The same slots tie.
proof fn lemma_slots_same(a: Seq<SlotModel>, b: Seq<SlotModel>, d: Seq<bool>, n: int)
    requires
        a.len() == b.len() == n,
        forall|i: int| 0 <= i < n ==> #[trigger] a[i] == b[i],
    ensures
        slots_le(a, b, d, 0),
        slots_le(b, a, d, 0),
{
    lemma_slots_skip(a, b, d, n);
    lemma_slots_skip(b, a, d, n);
}

/// What a slot holds of a leaf: a reversed fixed leaf as its complement.
pub open spec fn slot_for(l: LeafModel) -> SlotModel {
    match l {
        LeafModel::Fixed { bits, desc, radix } => SlotModel::Fixed(directed(l) as u64),
        LeafModel::Bytes { desc, text } => SlotModel::Bytes(kept(text)),
    }
}

/// What the slots hold of the leaves.
pub open spec fn slots_for(s: Seq<LeafModel>) -> Seq<SlotModel> {
    s.map_values(|l: LeafModel| slot_for(l))
}

/// Which leaves are reversed.
pub open spec fn leaf_flags(s: Seq<LeafModel>) -> Seq<bool> {
    s.map_values(|l: LeafModel| part_of(l).desc)
}

/// Slots of one leaf each are ordered as the leaves.
proof fn lemma_slot_for(x: LeafModel, y: LeafModel)
    requires
        part_of(x) == part_of(y),
        x matches LeafModel::Fixed { bits, desc, radix } ==> radix_fits(radix, bits),
        y matches LeafModel::Fixed { bits, desc, radix } ==> radix_fits(radix, bits),
        x matches LeafModel::Bytes { desc, text } ==> text.len() <= SLOT_MAX,
        y matches LeafModel::Bytes { desc, text } ==> text.len() <= SLOT_MAX,
    ensures
        slot_for(x) == slot_for(y) <==> x == y,
        slot_le(slot_for(x), slot_for(y), part_of(x).desc) == leaf_le(x, y),
        (slot_for(x) is Bytes) == (slot_for(y) is Bytes),
{
    if let LeafModel::Fixed { bits, desc, radix } = x {
        lemma_directed_fits(x);
        lemma_directed_fits(y);
    }
}

pub proof fn lemma_directed_fits(l: LeafModel)
    requires
        l matches LeafModel::Fixed { bits, desc, radix } && radix_fits(radix, bits),
    ensures
        0 <= directed(l) <= u64::MAX,
        directed(l) as u64 == directed(l),
{
    if let LeafModel::Fixed { bits, desc, radix } = l {
        lemma2_to64_rest();
        if bits < 64 {
            lemma_pow2_strictly_increases(bits as nat, 64);
        }
    }
}

proof fn lemma_slots_for(a: Seq<LeafModel>, b: Seq<LeafModel>, parts: Seq<Part>, p: int)
    requires
        0 <= p,
        shaped(a, parts),
        shaped(b, parts),
        all_short(a),
        all_short(b),
    ensures
        slots_le(slots_for(a), slots_for(b), leaf_flags(a), p) == key_le_from(a, b, p),
    decreases a.len() - p,
{
    if p < a.len() {
        assert(part_of(a[p]) == parts[p] && part_of(b[p]) == parts[p]);
        lemma_slot_for(a[p], b[p]);
        lemma_slots_for(a, b, parts, p + 1);
    }
}

/// Fills the slots of a composite record.
struct FillSlots<'a, K: Key + ?Sized> {
    slots: K::Slots<'a>,
    p: usize,
    ok: bool,
    seen: Ghost<Seq<LeafModel>>,
}

impl<'a, K: Key + ?Sized> FillSlots<'a, K> {
    /// The slots hold the leaves seen so far, as far as the kinds fit.
    spec fn filled(&self) -> bool {
        let s = self.slots.slots();
        &&& s.len() == capped(K::parts()).len()
        &&& self.p == if self.seen@.len() <= s.len() {
            self.seen@.len()
        } else {
            s.len()
        }
        &&& self.ok == all_short(self.seen@)
        &&& forall|i: int| 0 <= i < self.p && (self.seen@[i] is Bytes) == (s[i] is Bytes) ==> #[trigger] s[i] == slot_for(self.seen@[i])
    }

    fn put(&mut self, v: Leaf<'a>, Ghost(l): Ghost<LeafModel>, short: bool)
        requires
            old(self).filled(),
            slot_of(v) == slot_for(l),
            (v is Bytes) == (l is Bytes),
            short == (l matches LeafModel::Bytes { desc, text } ==> text.len() <= SLOT_MAX),
        ensures
            final(self).filled(),
            final(self).seen@ == old(self).seen@.push(l),
    {
        let n: usize = K::leaf_count();
        let ghost before = self.seen@;
        let ghost s = self.slots.slots();
        if self.p < n {
            self.slots.set_leaf(self.p, v);
            self.p = self.p + 1;
        }
        self.ok = self.ok && short;
        self.seen = Ghost(before.push(l));
        proof {
            let after = self.seen@;
            assert forall|i: int| 0 <= i < before.len() implies #[trigger] before[i] == after[i] by {}
            assert(after[before.len() as int] == l);
            if self.ok {
                assert(all_short(after));
            } else if all_short(after) {
                assert(all_short(before)) by {
                    assert forall|i: int| 0 <= i < before.len() implies ((#[trigger] before[i]) matches LeafModel::Bytes { desc, text } ==> text.len() <= SLOT_MAX) by {
                        assert(before[i] == after[i]);
                    }
                }
            }
        }
    }
}

impl<'a, K: Key + ?Sized> PartSink<'a> for FillSlots<'a, K> {
    closed spec fn log(&self) -> Seq<LeafModel> {
        self.seen@
    }

    closed spec fn ready(&self) -> bool {
        self.filled()
    }

    fn fixed(&mut self, radix: u64, bits: u8, desc: bool) {
        let ghost l = LeafModel::Fixed { bits, desc, radix };
        proof {
            lemma2_to64_rest();
            lemma_directed_fits(l);
        }
        let top: u64 = if bits >= 64 {
            u64::MAX
        } else {
            low_ones(bits)
        };
        let r: u64 = if desc {
            top - radix
        } else {
            radix
        };
        self.put(Leaf::Fixed(r), Ghost(l), true);
    }

    fn bytes(&mut self, b: &'a [u8], desc: bool) {
        self.put(Leaf::Bytes(b), Ghost(LeafModel::Bytes { desc, text: b@ }), b.len() as u64 <= SLOT_MAX);
    }
}

impl<'a, K: Key + ?Sized> Record<'a> for CompRec<'a, K> {
    open spec fn suits(parts: Seq<Part>) -> bool {
        parts == K::parts() && 1 <= parts.len() <= MAX_PARTS
    }

    open spec fn chunks_for(leaves: Seq<LeafModel>) -> Seq<u64> {
        comp_chunks(slots_for(leaves), leaf_flags(leaves))
    }

    open spec fn place(&self) -> u32 {
        self.idx
    }

    open spec fn kept_word(&self) -> u32 {
        0
    }

    proof fn order_kept(a: Seq<LeafModel>, b: Seq<LeafModel>, parts: Seq<Part>) {
        lemma_slots_for(a, b, parts, 0);
        let (s, t) = (slots_for(a), slots_for(b));
        assert forall|p: int| 0 <= p < s.len() implies (#[trigger] s[p] is Bytes) == (t[p] is Bytes) by {
            assert(part_of(a[p]) == parts[p] && part_of(b[p]) == parts[p]);
        }
        assert(leaf_flags(a) =~= leaf_flags(b)) by {
            assert forall|p: int| 0 <= p < a.len() implies leaf_flags(a)[p] == leaf_flags(b)[p] by {
                assert(part_of(a[p]) == parts[p] && part_of(b[p]) == parts[p]);
            }
        }
        lemma_slots_order(s, t, leaf_flags(a), 0);
    }

    fn build<Q: Key + ?Sized>(key: &'a Q, idx: u32) -> (r: Option<Self>) {
        let slots: K::Slots<'a> = SlotTree::zero();
        proof {
            slots.slots_fit();
            K::slots_shaped();
        }
        let mut sink = FillSlots::<'a, K> { slots, p: 0, ok: true, seen: Ghost(Seq::empty()) };
        key.write_parts(false, &mut sink);
        let rec: CompRec<'a, K> = CompRec { slots: sink.slots, idx };
        proof {
            key.leaves_shaped();
            let s = key.leaves();
            assert(Seq::<LeafModel>::empty() + s =~= s);
            rec.lemma_held();
            let h = rec.held();
            assert forall|i: int| 0 <= i < s.len() implies h[i] == slots_for(s)[i] by {
                assert(part_of(s[i]) == K::parts()[i]);
            }
            assert(h =~= slots_for(s));
            assert(leaf_flags(s) =~= reversed_flags(K::parts())) by {
                assert forall|i: int| 0 <= i < s.len() implies leaf_flags(s)[i] == reversed_flags(K::parts())[i] by {
                    assert(part_of(s[i]) == K::parts()[i]);
                }
            }
        }
        if sink.ok {
            Some(rec)
        } else {
            None
        }
    }

    fn index(&self) -> (r: u32) {
        self.idx
    }

    fn set_index(&mut self, i: u32) {
        self.idx = i;
    }

    open spec fn room_for(word: u32) -> bool {
        word == 0
    }

    open spec fn has_value() -> bool {
        false
    }

    fn keep(&mut self, word: u32) -> (r: bool) {
        word == 0
    }

    fn value(&self) -> (r: Option<(u64, u32)>) {
        None
    }
}

} // verus!
