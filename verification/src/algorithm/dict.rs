//! Dictionary radix: for a range with few distinct keys, one hashed bucket per
//! key, the buckets laid out in key order.
use crate::algorithm::{retold, tables_for, track, Tools, Track};
use crate::algorithm::exec::{
    chunk_key, chunk_ready, chunk_sorted, raw_within, varying, words_at, Ran,
};
use crate::algorithm::level::lemma_coarse_stable;
use crate::bits::{
    agree_outside, lemma_agree_or, lemma_agree_through, lemma_shr_is_div, lemma_u64_lt_pow2_64,
};
use crate::gather::{
    bucket, counted, digits_below, in_bucket, lemma_count_start, lemma_count_step,
    lemma_gathered_sort, lemma_scatter_done, lemma_scatter_step, lemma_slot, positioned, scattered,
    start,
};
use crate::mergesort::merge_sort_with;
use crate::order::{
    by_key, lemma_by_key_total, lemma_filter_agree, lemma_filter_empty, lemma_filter_member,
    lemma_orders_agree, lemma_permutation_len, lemma_permutation_member, lemma_stably, permutation,
    stable_sort_of, stably,
};
use crate::radix::{
    clear_table, copy_all, lemma_prefix_positions, moved_tally, prefix_sums, table_size,
};
use crate::view::{
    after_times, asks_for, elem_le, keeps_record, lemma_keyed_le, lemma_record, note_copies,
    note_key, table_note, Alloc, AllocError, Elem, Hooks, Keyed, NoHooks, Note, RadixKey, Stat,
};
use vstd::arithmetic::power2::{lemma_pow2_pos, pow2};
use vstd::prelude::*;

verus! {

/// Dictionary only up to this many distinct sampled keys.
pub const DICT_MAX_DISTINCT: usize = 128;

/// Bits of the bucket hash: 4096 buckets for fixed 64-bit keys, 2048 otherwise.
pub open spec fn dict_width<T: Elem>() -> u32 {
    if !T::has_chunks() && T::Key::BITS == 64 {
        12
    } else {
        11
    }
}

/// Bits of the bucket hash.
pub fn dict_bits<T: Elem>() -> (r: u32)
    ensures
        r == dict_width::<T>(),
{
    if !T::chunked() && T::Key::BITS == 64 {
        12
    } else {
        11
    }
}

/// The bucket of a key.
pub open spec fn dict_hash(k: u64, mul: u64, bits: u32) -> u64 {
    k.wrapping_mul(mul) >> ((64 - bits) as u32)
}

pub proof fn lemma_hash_bound(k: u64, mul: u64, bits: u32)
    requires
        bits == 11 || bits == 12,
    ensures
        dict_hash(k, mul, bits) < pow2(bits as nat),
        pow2(bits as nat) <= 4096,
{
    let x: u64 = k.wrapping_mul(mul);
    let s: u32 = (64 - bits) as u32;
    lemma_shr_is_div(x, s);
    lemma_u64_lt_pow2_64(x);
    vstd::arithmetic::power2::lemma_pow2_adds(s as nat, bits as nat);
    lemma_pow2_pos(s as nat);
    vstd::arithmetic::power2::lemma2_to64();
    let ps = pow2(s as nat) as int;
    let pb = pow2(bits as nat) as int;
    let q = x as int / ps;
    vstd::arithmetic::div_mod::lemma_fundamental_div_mod(x as int, ps);
    assert(q < pb) by (nonlinear_arith)
        requires
            ps * q <= x as int,
            (x as int) < ps * pb,
            ps > 0,
    ;
}

pub fn dict_bucket(k: u64, mul: u64, bits: u32) -> (r: u32)
    requires
        bits == 11 || bits == 12,
    ensures
        r == dict_hash(k, mul, bits),
        r < pow2(bits as nat),
{
    let x: u64 = k.wrapping_mul(mul);
    let s: u32 = 64 - bits;
    proof {
        lemma_hash_bound(k, mul, bits);
    }
    (x >> s) as u32
}

/// The bucket of an element.
pub open spec fn hash_of<T: Elem>(c: int, mul: u64, bits: u32) -> spec_fn(T) -> int {
    |x: T| dict_hash(x.chunks()[c], mul, bits) as int
}

/// The buckets in use, by key: `slots` lists them, `rank` tells where a bucket
/// stands in the list.
pub open spec fn dictionary<T: Elem>(s: Seq<T>, c: int, mul: u64, bits: u32, slots: Seq<Keyed>, rank: Seq<u32>) -> bool {
    &&& rank.len() == pow2(bits as nat)
    &&& forall|r: int, q: int| 0 <= r < q < slots.len() ==> (#[trigger] slots[r]).key < (#[trigger] slots[q]).key
    &&& forall|i: int|
        #![trigger s[i]]
        0 <= i < s.len() ==> {
            let h = hash_of::<T>(c, mul, bits)(s[i]);
            &&& 0 <= h < rank.len()
            &&& rank[h] < slots.len()
            &&& slots[rank[h] as int].key == s[i].chunks()[c]
            &&& slots[rank[h] as int].id == h
        }
}

pub open spec fn rank_of<T: Elem>(c: int, mul: u64, bits: u32, rank: Seq<u32>) -> spec_fn(T) -> int {
    |x: T| rank[hash_of::<T>(c, mul, bits)(x)] as int
}

/// The ranks have the order of the keys.
pub proof fn lemma_rank_order<T: Elem>(s: Seq<T>, c: int, mul: u64, bits: u32, slots: Seq<Keyed>, rank: Seq<u32>, i: int, j: int)
    requires
        dictionary(s, c, mul, bits, slots, rank),
        0 <= i < s.len(),
        0 <= j < s.len(),
    ensures
        (rank_of::<T>(c, mul, bits, rank)(s[i]) <= rank_of::<T>(c, mul, bits, rank)(s[j])) == (s[i].chunks()[c] <= s[j].chunks()[c]),
{
    let ri = rank_of::<T>(c, mul, bits, rank)(s[i]);
    let rj = rank_of::<T>(c, mul, bits, rank)(s[j]);
    if ri < rj {
        assert(slots[ri].key < slots[rj].key);
    } else if rj < ri {
        assert(slots[rj].key < slots[ri].key);
    }
}

/// The record once the first `i` elements were scattered.
pub open spec fn dict_scatter_tally<T: Elem, H: Hooks>(t: H::Tally, s: Seq<T>, c: int, i: int) -> H::Tally
    decreases i,
{
    if i <= 0 {
        t
    } else {
        let u = dict_scatter_tally::<T, H>(t, s, c, i - 1);
        H::after(H::after(H::after(H::after(u, Note::Read), Note::Key(s[i - 1].key_load(c) as u64)), table_note(1, 4, true, true)), Note::Write)
    }
}

/// Scatters by the rank of the bucket; `pos` holds the starts of the ranks, each
/// of which stands for an entry of the table `cnt` of the buckets.
#[verifier::rlimit(40)]
pub fn dict_scatter<T: Elem, H: Hooks>(
    src: &[T],
    dst: &mut [T],
    chunk: u64,
    mul: u64,
    bits: u32,
    rank: &[u32],
    pos: &mut [u32],
    cnt: &[u32],
    hooks: &mut H,
    Ghost(slots): Ghost<Seq<Keyed>>,
)
    requires
        src@.len() <= 0xFFFF_FFFF,
        old(dst)@.len() == src@.len(),
        bits == 11 || bits == 12,
        chunk_ready(src@, chunk as int),
        dictionary(src@, chunk as int, mul, bits, slots, rank@),
        positioned(src@, rank_of::<T>(chunk as int, mul, bits, rank@), slots.len(), 0, old(pos)@),
    ensures
        keeps_record(*old(hooks), *final(hooks)),
        H::records() ==> final(hooks).tally() == dict_scatter_tally::<T, H>(old(hooks).tally(), src@, chunk as int, src@.len() as int),
        chunk_sorted(chunk as int, src@, final(dst)@),
        stable_sort_of(by_key(chunk_key(chunk as int)), src@, final(dst)@),
        final(dst)@.len() == src@.len(),
        final(pos)@.len() == old(pos)@.len(),
{
    let n: usize = src.len();
    let ghost c = chunk as int;
    let ghost dg = rank_of::<T>(c, mul, bits, rank@);
    let ghost nb = slots.len();
    let mut i: usize = 0;
    proof {
        assert(src@.take(0) =~= Seq::<T>::empty());
        assert forall|b: int, k: int| 0 <= b < nb && 0 <= k < bucket(src@.take(0), dg, b).len() implies dst@[start(src@, dg, b as nat) + k] == #[trigger] bucket(src@.take(0), dg, b)[k] by {
            lemma_filter_empty(in_bucket(dg, b));
        }
        assert(digits_below(src@, dg, nb));
    }
    while i < n
        invariant
            keeps_record(*old(hooks), *hooks),
            H::records() ==> hooks.tally() == dict_scatter_tally::<T, H>(old(hooks).tally(), src@, c, i as int),
            i <= n == src@.len(),
            n <= 0xFFFF_FFFF,
            dst@.len() == n,
            bits == 11 || bits == 12,
            c == chunk,
            chunk_ready(src@, c),
            dictionary(src@, c, mul, bits, slots, rank@),
            dg == rank_of::<T>(c, mul, bits, rank@),
            nb == slots.len(),
            digits_below(src@, dg, nb),
            scattered(src@, dg, nb, i as int, dst@),
            positioned(src@, dg, nb, i as int, pos@),
            pos@.len() == old(pos)@.len(),
        decreases n - i,
    {
        let e: T = src[i];
        let k: u64 = T::radix_key(e, chunk).to_u64();
        let h: u32 = dict_bucket(k, mul, bits);
        let b: usize = rank[h as usize] as usize;
        proof {
            assert(b as int == dg(src@[i as int]));
            lemma_slot(src@, dg, nb, i as int);
            assert(pos@[b as int] as int == start(src@, dg, b as nat) + bucket(src@.take(i as int), dg, b as int).len());
            lemma_scatter_step(src@, dg, nb, i as int, dst@, pos@, dst@.update(pos@[b as int] as int, e), pos@.update(b as int, (pos@[b as int] + 1) as u32));
        }
        let slot: u32 = pos[b];
        dst[slot as usize] = e;
        pos[b] = slot + 1;
        hooks.on_read(src, i);
        note_key(e, chunk, hooks);
        hooks.on_table(cnt, h as usize, 4, true, true);
        hooks.on_write(&*dst, slot as usize);
        i += 1;
    }
    proof {
        lemma_scatter_done(src@, dg, nb, dst@);
        assert(dst@.take(n as int) =~= dst@);
        lemma_gathered_sort(src@, dg, nb);
        lemma_coarse_stable(dg, src@, dst@);
        assert forall|i: int, j: int| 0 <= i < src@.len() && 0 <= j < src@.len() implies by_key(dg)(#[trigger] src@[i], #[trigger] src@[j]) == by_key(chunk_key::<T>(c))(src@[i], src@[j]) by {
            lemma_rank_order(src@, c, mul, bits, slots, rank@, i, j);
        }
        lemma_by_key_total(dg);
        lemma_by_key_total(chunk_key::<T>(c));
        lemma_orders_agree(by_key(dg), by_key(chunk_key::<T>(c)), src@, dst@);
        assert forall|i: int, j: int| 0 <= i <= j < dst@.len() implies by_key(chunk_key::<T>(c))(#[trigger] dst@[i], #[trigger] dst@[j]) by {
            let k = lemma_permutation_member(dst@, src@, i);
            let l = lemma_permutation_member(dst@, src@, j);
            lemma_rank_order(src@, c, mul, bits, slots, rank@, k, l);
            assert(by_key(dg)(dst@[i], dst@[j]));
        }
    }
}

/// The tables of a dictionary: how often each bucket was met and the key it
/// stands for.
pub struct DictCounts {
    /// Every bucket holds one key.
    pub sound: bool,
    /// The varying bits of the keys.
    pub mask: u64,
}

/// Every bucket that was met holds its key.
pub open spec fn keys_held<T: Elem>(s: Seq<T>, c: int, mul: u64, bits: u32, i: int, rep: Seq<u64>) -> bool {
    forall|k: int| 0 <= k < i ==> rep[hash_of::<T>(c, mul, bits)(#[trigger] s[k])] == s[k].chunks()[c]
}

/// Different keys have different buckets.
pub open spec fn keys_apart<T: Elem>(s: Seq<T>, c: int, mul: u64, bits: u32) -> bool {
    forall|i: int, j: int|
        0 <= i < s.len() && 0 <= j < s.len() && dict_hash((#[trigger] s[i]).chunks()[c], mul, bits) == dict_hash((#[trigger] s[j]).chunks()[c], mul, bits) ==> s[i].chunks()[c] == s[j].chunks()[c]
}

/// The word `h` of a table of words: two entries each where they are `wide`.
pub open spec fn word_at(tab: Seq<u32>, wide: bool, h: int) -> u64 {
    if wide {
        (tab[2 * h] + tab[2 * h + 1] * 0x1_0000_0000) as u64
    } else {
        tab[h] as u64
    }
}

/// The first `nb` words of a table.
pub open spec fn words_in(tab: Seq<u32>, wide: bool, nb: nat) -> Seq<u64> {
    Seq::new(nb, |h: int| word_at(tab, wide, h))
}

/// A table holds `nb` words.
pub open spec fn holds_words(tab: Seq<u32>, wide: bool, nb: nat) -> bool {
    if wide {
        2 * nb <= tab.len()
    } else {
        nb <= tab.len()
    }
}

/// The word `h` of a table.
fn get_word(tab: &[u32], wide: bool, h: usize, Ghost(nb): Ghost<nat>) -> (k: u64)
    requires
        holds_words(tab@, wide, nb),
        h < nb,
    ensures
        k == words_in(tab@, wide, nb)[h as int],
{
    let len: usize = tab.len();
    if wide {
        tab[2 * h] as u64 + tab[2 * h + 1] as u64 * 0x1_0000_0000
    } else {
        tab[h] as u64
    }
}

/// Sets the word `h` of a table.
fn put_word(tab: &mut [u32], wide: bool, h: usize, k: u64, Ghost(nb): Ghost<nat>)
    requires
        holds_words(old(tab)@, wide, nb),
        h < nb,
        !wide ==> k <= 0xFFFF_FFFF,
    ensures
        final(tab)@.len() == old(tab)@.len(),
        words_in(final(tab)@, wide, nb) == words_in(old(tab)@, wide, nb).update(h as int, k),
{
    let ghost before = tab@;
    let len: usize = tab.len();
    if wide {
        tab[2 * h] = (k % 0x1_0000_0000) as u32;
        tab[2 * h + 1] = (k / 0x1_0000_0000) as u32;
    } else {
        tab[h] = k as u32;
    }
    assert(words_in(tab@, wide, nb) =~= words_in(before, wide, nb).update(h as int, k));
}

/// The record once the buckets of the first `i` elements were counted in a table of
/// `nb` entries, with the keys of the buckets in entries of `bytes` bytes.
pub open spec fn dict_count_tally<T: Elem, H: Hooks>(t: H::Tally, s: Seq<T>, c: int, nb: usize, bytes: usize, i: int) -> H::Tally
    decreases i,
{
    if i <= 0 {
        H::after(H::after(H::after(t, table_note(nb, 4, false, true)), Note::Read), Note::Key(s[0].key_load(c) as u64))
    } else {
        let u = dict_count_tally::<T, H>(t, s, c, nb, bytes, i - 1);
        let seen = H::after(H::after(u, Note::Read), Note::Key(s[i - 1].key_load(c) as u64));
        H::after(H::after(seen, table_note(1, 4, true, true)), table_note(1, bytes, true, true))
    }
}

/// The bytes of a key of a bucket.
pub open spec fn word_bytes(wide: bool) -> usize {
    if wide {
        8
    } else {
        4
    }
}

/// Counts the buckets in a cleared table and notes the key of each, which every
/// element of it must carry.
#[verifier::rlimit(40)]
pub fn dict_count<T: Elem, H: Hooks>(src: &[T], chunk: u64, mul: u64, bits: u32, cnt: &mut [u32], rep: &mut [u32], wide: bool, hooks: &mut H) -> (r: DictCounts)
    requires
        0 < src@.len() <= 0xFFFF_FFFF,
        bits == 11 || bits == 12,
        chunk_ready(src@, chunk as int),
        old(cnt)@.len() == pow2(bits as nat),
        holds_words(old(rep)@, wide, pow2(bits as nat)),
        wide <==> T::Key::BITS != 32,
    ensures
        keeps_record(*old(hooks), *final(hooks)),
        H::records() ==> final(hooks).tally() == dict_count_tally::<T, H>(old(hooks).tally(), src@, chunk as int, old(cnt)@.len() as usize, word_bytes(wide), src@.len() as int),
        final(cnt)@.len() == old(cnt)@.len(),
        final(rep)@.len() == old(rep)@.len(),
        counted(src@, hash_of::<T>(chunk as int, mul, bits), pow2(bits as nat), src@.len() as int, final(cnt)@),
        raw_within(src@, chunk as int, r.mask),
        r.mask == varying(words_at(src@, chunk as int), src@.len() as int),
        r.sound ==> keys_held(src@, chunk as int, mul, bits, src@.len() as int, words_in(final(rep)@, wide, pow2(bits as nat))),
        r.sound <==> keys_apart(src@, chunk as int, mul, bits),
{
    let n: usize = src.len();
    let ghost c = chunk as int;
    let ghost dg = hash_of::<T>(c, mul, bits);
    let ghost nb = pow2(bits as nat);
    let all: usize = cnt.len();
    clear_table(cnt, all);
    proof {
        lemma_count_start(src@, dg, nb, cnt@);
    }
    let k0: u64 = T::radix_key(src[0], chunk).to_u64();
    let mut xm: u64 = 0;
    let width: usize = if wide {
        8
    } else {
        4
    };
    hooks.on_table_sweep(&*cnt, all, 4, false, true);
    hooks.on_read(src, 0);
    note_key(src[0], chunk, hooks);
    let mut sound = true;
    let ghost mut bad: (int, int) = (0, 0);
    let ghost ks = words_at(src@, c);
    let mut i: usize = 0;
    while i < n
        invariant
            keeps_record(*old(hooks), *hooks),
            H::records() ==> hooks.tally() == dict_count_tally::<T, H>(old(hooks).tally(), src@, c, nb as usize, width, i as int),
            width == word_bytes(wide),
            i <= n == src@.len(),
            n <= 0xFFFF_FFFF,
            bits == 11 || bits == 12,
            c == chunk,
            chunk_ready(src@, c),
            dg == hash_of::<T>(c, mul, bits),
            nb == pow2(bits as nat),
            cnt@.len() == nb,
            rep@.len() == old(rep)@.len(),
            holds_words(rep@, wide, nb),
            wide <==> T::Key::BITS != 32,
            counted(src@, dg, nb, i as int, cnt@),
            forall|k: int| 0 <= k < i ==> agree_outside((#[trigger] src@[k]).chunks()[c], k0, xm),
            ks == words_at(src@, c),
            k0 == ks[0],
            xm == varying(ks, i as int),
            sound ==> keys_held(src@, c, mul, bits, i as int, words_in(rep@, wide, nb)),
            forall|b: int| 0 <= b < nb && cnt@[b] > 0 ==> exists|k: int| 0 <= k < i && dg(src@[k]) == b && (#[trigger] src@[k]).chunks()[c] == words_in(rep@, wide, nb)[b],
            !sound ==> 0 <= bad.0 < n && 0 <= bad.1 < n && src@[bad.0].chunks()[c] != src@[bad.1].chunks()[c] && dg(src@[bad.0]) == dg(src@[bad.1]),
        decreases n - i,
    {
        let e: T = src[i];
        let k: u64 = T::radix_key(e, chunk).to_u64();
        let h: usize = dict_bucket(k, mul, bits) as usize;
        let before: u32 = cnt[h];
        let ghost rep0 = words_in(rep@, wide, nb);
        let ghost cnt0 = cnt@;
        proof {
            e.chunks_fit();
            assert(h as int == dg(src@[i as int]));
            lemma_count_step(src@, dg, nb, i as int, cnt@, cnt@.update(h as int, (cnt@[h as int] + 1) as u32));
            lemma_agree_or(k, k0, xm, 0);
            assert(ks[i as int] == k);
            assert forall|j: int| 0 <= j < i implies agree_outside((#[trigger] src@[j]).chunks()[c], k0, xm | (k ^ k0)) by {
                lemma_agree_or(src@[j].chunks()[c], k0, xm, k ^ k0);
            }
            if before == 0 {
                assert forall|j: int| 0 <= j < i implies dg(#[trigger] src@[j]) != h by {
                    if dg(src@[j]) == h {
                        crate::order::lemma_filter_index(src@.take(i as int), in_bucket(dg, h as int), j);
                        assert(src@.take(i as int)[j] == src@[j]);
                        assert(cnt@[h as int] as int == bucket(src@.take(i as int), dg, h as int).len());
                    }
                }
            }
        }
        xm = xm | (k ^ k0);
        if before == 0 {
            put_word(rep, wide, h, k, Ghost(nb));
        } else if get_word(&*rep, wide, h, Ghost(nb)) != k {
            proof {
                let j = choose|j: int| 0 <= j < i && dg(src@[j]) == h && (#[trigger] src@[j]).chunks()[c] == rep0[h as int];
                bad = (j, i as int);
            }
            sound = false;
        }
        cnt[h] = before + 1;
        hooks.on_read(src, i);
        note_key(e, chunk, hooks);
        let room: usize = rep.len();
        let at: usize = if wide {
            2 * h
        } else {
            h
        };
        hooks.on_table(&*cnt, h, 4, true, true);
        hooks.on_table(&*rep, at, width, true, true);
        let ghost reps = words_in(rep@, wide, nb);
        proof {
            if sound {
                assert forall|q: int| 0 <= q < i + 1 implies reps[hash_of::<T>(c, mul, bits)(#[trigger] src@[q])] == src@[q].chunks()[c] by {
                    lemma_hash_bound(src@[q].chunks()[c], mul, bits);
                    if q < i {
                        assert(rep0[dg(src@[q])] == src@[q].chunks()[c]);
                    }
                }
            }
            assert forall|b: int| 0 <= b < nb && cnt@[b] > 0 implies exists|q: int| 0 <= q < i + 1 && dg(src@[q]) == b && (#[trigger] src@[q]).chunks()[c] == reps[b] by {
                if b == h {
                    if before == 0 {
                        assert(src@[i as int].chunks()[c] == reps[b]);
                    } else {
                        let q = choose|q: int| 0 <= q < i && dg(src@[q]) == b && (#[trigger] src@[q]).chunks()[c] == rep0[b];
                        assert(src@[q].chunks()[c] == reps[b]);
                    }
                } else {
                    assert(cnt0[b] > 0);
                    let q = choose|q: int| 0 <= q < i && dg(src@[q]) == b && (#[trigger] src@[q]).chunks()[c] == rep0[b];
                    assert(src@[q].chunks()[c] == reps[b]);
                }
            }
        }
        i += 1;
    }
    proof {
        assert forall|i: int, j: int| 0 <= i < src@.len() && 0 <= j < src@.len() implies agree_outside((#[trigger] src@[i]).chunks()[c], (#[trigger] src@[j]).chunks()[c], xm) by {
            lemma_agree_through(src@[i].chunks()[c], src@[j].chunks()[c], k0, xm);
        }
        if !sound {
            let (x, y) = (src@[bad.0], src@[bad.1]);
            assert(dg(x) == dg(y));
        } else {
            assert forall|i: int, j: int|
                0 <= i < src@.len() && 0 <= j < src@.len() && dict_hash((#[trigger] src@[i]).chunks()[c], mul, bits) == dict_hash((#[trigger] src@[j]).chunks()[c], mul, bits) implies src@[i].chunks()[c]
                == src@[j].chunks()[c] by {
                assert(words_in(rep@, wide, nb)[dg(src@[i])] == src@[i].chunks()[c]);
                assert(words_in(rep@, wide, nb)[dg(src@[j])] == src@[j].chunks()[c]);
            }
        }
    }
    DictCounts { sound, mask: xm }
}

/// The buckets in use stand in a list, with their keys.
pub open spec fn lists_buckets(cnt: Seq<u32>, reps: Seq<u64>, v: Seq<Keyed>, n: int) -> bool {
    &&& v.len() <= n
    &&& forall|r: int| 0 <= r < v.len() ==> (#[trigger] v[r]).id < n && cnt[v[r].id as int] > 0 && v[r].key == reps[v[r].id as int]
    &&& forall|r: int, q: int| 0 <= r < q < v.len() ==> (#[trigger] v[r]).id < (#[trigger] v[q]).id
    &&& forall|c: int| 0 <= c < n && #[trigger] cnt[c] > 0 ==> exists|r: int| 0 <= r < v.len() && v[r].id == c
}

/// How many of the first `b` buckets are in use.
pub open spec fn buckets_used<T>(s: Seq<T>, d: spec_fn(T) -> int, b: int) -> int
    decreases b,
{
    if b <= 0 {
        0
    } else {
        buckets_used(s, d, b - 1) + if bucket(s, d, b - 1).len() > 0 {
            1int
        } else {
            0int
        }
    }
}

/// How many of the first `b` counts are not zero.
pub open spec fn counts_used(cnt: Seq<u32>, b: int) -> int
    decreases b,
{
    if b <= 0 {
        0
    } else {
        counts_used(cnt, b - 1) + if cnt[b - 1] > 0 {
            1int
        } else {
            0int
        }
    }
}

proof fn lemma_used<T>(s: Seq<T>, d: spec_fn(T) -> int, nb: nat, cnt: Seq<u32>, b: int)
    requires
        counted(s, d, nb, s.len() as int, cnt),
        b <= nb,
    ensures
        counts_used(cnt, b) == buckets_used(s, d, b),
    decreases b,
{
    if b > 0 {
        lemma_used(s, d, nb, cnt, b - 1);
        assert(s.take(s.len() as int) =~= s);
        assert(cnt[b - 1] as int == bucket(s, d, b - 1).len());
    }
}

/// Lists the buckets in use at the front of `slots`, and tells how many they are.
#[verifier::rlimit(40)]
pub fn dict_occupied(cnt: &[u32], rep: &[u32], wide: bool, slots: &mut [Keyed]) -> (m: usize)
    requires
        cnt@.len() <= 4096,
        holds_words(rep@, wide, cnt@.len()),
        cnt@.len() <= old(slots)@.len(),
    ensures
        m <= cnt@.len(),
        m == counts_used(cnt@, cnt@.len() as int),
        final(slots)@.len() == old(slots)@.len(),
        lists_buckets(cnt@, words_in(rep@, wide, cnt@.len()), final(slots)@.take(m as int), cnt@.len() as int),
{
    let n: usize = cnt.len();
    let ghost reps = words_in(rep@, wide, n as nat);
    let mut m: usize = 0;
    let mut b: usize = 0;
    while b < n
        invariant
            b <= n == cnt@.len(),
            n <= 4096,
            m <= b,
            m == counts_used(cnt@, b as int),
            n <= slots@.len() == old(slots)@.len(),
            holds_words(rep@, wide, n as nat),
            reps == words_in(rep@, wide, n as nat),
            lists_buckets(cnt@, reps, slots@.take(m as int), b as int),
        decreases n - b,
    {
        let ghost v0 = slots@.take(m as int);
        if cnt[b] != 0 {
            slots[m] = Keyed { key: get_word(rep, wide, b, Ghost(n as nat)), id: b as u32 };
            m += 1;
            assert(slots@.take(m as int) =~= v0.push(slots@[m - 1]));
        }
        proof {
            let v = slots@.take(m as int);
            assert forall|r: int| 0 <= r < v.len() implies (#[trigger] v[r]).id < b + 1 && cnt@[v[r].id as int] > 0 && v[r].key == reps[v[r].id as int] by {
                if r < v0.len() {
                    assert(v[r] == v0[r]);
                }
            }
            assert forall|r: int, q: int| 0 <= r < q < v.len() implies (#[trigger] v[r]).id < (#[trigger] v[q]).id by {
                assert(v[r] == v0[r]);
                if q < v0.len() {
                    assert(v[q] == v0[q]);
                }
            }
            assert forall|c: int| 0 <= c < b + 1 && #[trigger] cnt@[c] > 0 implies exists|r: int| 0 <= r < v.len() && v[r].id == c by {
                if c < b {
                    let r = choose|r: int| 0 <= r < v0.len() && v0[r].id == c;
                    assert(v[r] == v0[r]);
                } else {
                    assert(v[v.len() - 1].id == c);
                }
            }
        }
        b += 1;
    }
    m
}

/// Numbers the listed buckets in turn: `rank` tells the number of a bucket, `pos`
/// the count of a number.
fn dict_rank<H: Hooks>(slots: &[Keyed], cnt: &[u32], rank: &mut [u32], pos: &mut [u32], hooks: &mut H)
    requires
        slots@.len() <= cnt@.len() <= 4096,
        old(rank)@.len() == cnt@.len(),
        old(pos)@.len() == cnt@.len(),
        buckets_distinct(slots@),
        forall|q: int| 0 <= q < slots@.len() ==> (#[trigger] slots@[q]).id < cnt@.len(),
    ensures
        keeps_record(*old(hooks), *final(hooks)),
        final(hooks).tally() == after_times::<H>(old(hooks).tally(), table_note(1, 4, true, true), slots@.len() as int),
        final(rank)@.len() == cnt@.len(),
        final(pos)@.len() == cnt@.len(),
        forall|q: int| 0 <= q < slots@.len() ==> final(rank)@[(#[trigger] slots@[q]).id as int] == q,
        forall|q: int| 0 <= q < slots@.len() ==> final(pos)@[q] == cnt@[(#[trigger] slots@[q]).id as int],
{
    let m: usize = slots.len();
    let mut r: usize = 0;
    while r < m
        invariant
            keeps_record(*old(hooks), *hooks),
            hooks.tally() == after_times::<H>(old(hooks).tally(), table_note(1, 4, true, true), r as int),
            r <= m == slots@.len(),
            m <= cnt@.len() <= 4096,
            rank@.len() == cnt@.len(),
            pos@.len() == cnt@.len(),
            buckets_distinct(slots@),
            forall|q: int| 0 <= q < slots@.len() ==> (#[trigger] slots@[q]).id < cnt@.len(),
            forall|q: int| 0 <= q < r ==> rank@[(#[trigger] slots@[q]).id as int] == q,
            forall|q: int| 0 <= q < r ==> pos@[q] == cnt@[(#[trigger] slots@[q]).id as int],
        decreases m - r,
    {
        let h: usize = slots[r].id as usize;
        proof {
            assert(slots@[r as int].id == h);
        }
        rank[h] = r as u32;
        pos[r] = cnt[h];
        hooks.on_table(cnt, h, 4, true, true);
        r += 1;
    }
}

/// Two slots hold the same bucket only if they are one.
pub open spec fn buckets_distinct(slots: Seq<Keyed>) -> bool {
    forall|r: int, q: int| 0 <= r < slots.len() && 0 <= q < slots.len() && (#[trigger] slots[r]).id == (#[trigger] slots[q]).id ==> r == q
}

pub proof fn lemma_distinct_permutation(a: Seq<Keyed>, b: Seq<Keyed>)
    requires
        buckets_distinct(a),
        permutation(a, b),
    ensures
        buckets_distinct(b),
{
    lemma_permutation_len(a, b);
    assert(a.no_duplicates());
    a.lemma_multiset_has_no_duplicates();
    a.to_multiset_ensures();
    b.to_multiset_ensures();
    b.lemma_multiset_has_no_duplicates_conv();
    assert forall|r: int, q: int| 0 <= r < b.len() && 0 <= q < b.len() && (#[trigger] b[r]).id == (#[trigger] b[q]).id implies r == q by {
        let k = lemma_permutation_member(b, a, r);
        let l = lemma_permutation_member(b, a, q);
        assert(a[k].id == a[l].id);
    }
}

/// The entries of the tables of a dictionary: a count and a key for each bucket.
pub open spec fn dict_entries<T: Elem>() -> nat {
    if T::Key::BITS != 32 {
        3 * pow2(dict_width::<T>() as nat)
    } else {
        2 * pow2(dict_width::<T>() as nat)
    }
}

/// The record of a dictionary radix.
#[verifier::opaque]
pub open spec fn dict_tally<T: Elem, H: Hooks>(t: H::Tally, a: Seq<T>, c: int, mul: u64, to_src: bool, free: bool) -> H::Tally {
    let n = a.len() as int;
    let bits = dict_width::<T>();
    let nb = pow2(bits as nat);
    let counted = dict_count_tally::<T, H>(t, a, c, nb as usize, word_bytes(T::Key::BITS != 32), n);
    if !keys_apart(a, c, mul, bits) {
        counted
    } else {
        let swept = H::after(counted, table_note(nb as usize, 4, true, false));
        let ranked = after_times::<H>(swept, table_note(1, 4, true, true), buckets_used(a, hash_of::<T>(c, mul, bits), nb as int));
        let spread = dict_scatter_tally::<T, H>(H::after(ranked, Note::Count(Stat::RadixPasses, 1)), a, c, n);
        moved_tally::<H>(spread, n, false, to_src, free)
    }
}

/// Where a dictionary radix leads.
pub open spec fn dict_track<T: Elem, H: Hooks>(t: Track<H::Tally>, a: Seq<T>, c: int, mul: u64, to_src: bool, free: bool) -> Track<H::Tally> {
    retold(tables_for(t, dict_entries::<T>()), dict_tally::<T, H>(t.tally, a, c, mul, to_src, free))
}

/// Dictionary radix: one hashed bucket per distinct key, verified as it is
/// counted (every element of a bucket must carry the bucket's key), then the
/// occupied buckets are laid out in key order and one scatter pass sorts.
/// Reports failure, with nothing moved, if two distinct keys shared a bucket,
/// together with the exact mask for the fallback.
#[verifier::rlimit(40)]
pub fn dict_sort<T: Elem, M: Alloc, H: Hooks>(src: &mut [T], dst: &mut [T], chunk: u64, mul: u64, result_in_src: bool, tools: &mut Tools<M, H>, free: bool) -> (r: Result<Ran, AllocError>)
    requires
        old(tools).base() >= 0,
        0 < old(src)@.len() <= 0xFFFF_FFFF,
        old(dst)@.len() == old(src)@.len(),
        chunk_ready(old(src)@, chunk as int),
    ensures
        keeps_record(old(tools).hooks, final(tools).hooks),
        r is Ok ==> track(*final(tools)) == dict_track::<T, H>(track(*old(tools)), old(src)@, chunk as int, mul, result_in_src, free),
        r matches Ok(e) ==> e.sorted ==> (if e.in_src {
            final(src)@
        } else {
            final(dst)@
        }) == stably(by_key(chunk_key(chunk as int)), old(src)@),
        r matches Ok(e) ==> {
            &&& e.sorted && e.in_src ==> chunk_sorted(chunk as int, old(src)@, final(src)@)
            &&& e.sorted && !e.in_src ==> chunk_sorted(chunk as int, old(src)@, final(dst)@)
            &&& e.sorted && !free ==> e.in_src == result_in_src
            &&& e.sorted <==> keys_apart(old(src)@, chunk as int, mul, dict_width::<T>())
            &&& !e.sorted ==> final(src)@ == old(src)@ && final(dst)@ == old(dst)@ && raw_within(old(src)@, chunk as int, e.mask)
            &&& !e.sorted ==> e.mask == varying(words_at(old(src)@, chunk as int), old(src)@.len() as int)
        },
        r is Err ==> final(src)@ == old(src)@ && final(dst)@ == old(dst)@ && final(tools).mem.refusals() > old(tools).mem.refusals(),
        old(tools).tables@.len() >= dict_entries::<T>() ==> r is Ok && final(tools).mem == old(tools).mem && final(tools).tables@.len() == old(tools).tables@.len(),
        old(tools).tables@.len() < dict_entries::<T>() ==> final(tools).mem.asked() == asks_for::<u32>(old(tools).mem.asked(), dict_entries::<T>()),
        r is Ok ==> final(tools).mem.refusals() == old(tools).mem.refusals(),
        final(tools).base() == old(tools).base(),
        final(src)@.len() == old(src)@.len(),
        final(dst)@.len() == old(dst)@.len(),
        final(tools).machine == old(tools).machine,
{
    let n: usize = src.len();
    let ghost a = src@;
    let ghost c = chunk as int;
    let bits: u32 = dict_bits::<T>();
    let nb: usize = table_size(bits);
    let wide = <T::Key as RadixKey>::BITS != 32;
    proof {
        lemma_hash_bound(0, mul, bits);
        src@[0].chunks_fit();
    }
    let entries: usize = if wide {
        3 * nb
    } else {
        2 * nb
    };
    match tools.hist(entries) {
        Ok(_) => {},
        Err(e) => {
            return Err(e);
        },
    }
    let (cnt, rep) = tools.tables.split_at_mut(nb);
    let found: DictCounts = dict_count(src, chunk, mul, bits, cnt, rep, wide, &mut tools.hooks);
    let ghost told = dict_tally::<T, H>(old(tools).hooks.tally(), a, c, mul, result_in_src, free);
    proof {
        reveal(dict_tally);
    }
    if !found.sound {
        proof {
            lemma_record::<H>(tools.hooks.tally(), told);
        }
        return Ok(Ran { sorted: false, mask: found.mask, in_src: true });
    }
    let ghost reps = words_in(rep@, wide, nb as nat);
    let mut listing: [Keyed; 4096] = [Keyed { key: 0, id: 0 }; 4096];
    let mut spare: [Keyed; 4096] = [Keyed { key: 0, id: 0 }; 4096];
    let list: &mut [Keyed] = &mut listing;
    let m: usize = dict_occupied(&*cnt, &*rep, wide, list);
    tools.hooks.on_table_sweep(&*cnt, nb, 4, true, false);
    let (slots, beyond) = list.split_at_mut(m);
    let other: &mut [Keyed] = &mut spare;
    let (buf, unused) = other.split_at_mut(m);
    let ghost listed = slots@;
    let mut quiet: NoHooks = NoHooks;
    merge_sort_with(slots, buf, &mut quiet);
    let ghost s = slots@;
    proof {
        lemma_permutation_len(listed, s);
        lemma_distinct_permutation(listed, s);
        assert forall|q: int| 0 <= q < s.len() implies (#[trigger] s[q]).id < nb && cnt@[s[q].id as int] > 0 && s[q].key == reps[s[q].id as int] by {
            let l = lemma_permutation_member(s, listed, q);
        }
    }
    let mut ranks: [u32; 4096] = [0u32; 4096];
    let mut starts: [u32; 4096] = [0u32; 4096];
    let all_ranks: &mut [u32] = &mut ranks;
    let (rank, no_rank) = all_ranks.split_at_mut(nb);
    let all_starts: &mut [u32] = &mut starts;
    let (pos, no_start) = all_starts.split_at_mut(nb);
    dict_rank(&*slots, &*cnt, rank, pos, &mut tools.hooks);
    let ghost counts = pos@;
    prefix_sums(pos, m);
    let ghost hg = hash_of::<T>(c, mul, bits);
    let ghost dg = rank_of::<T>(c, mul, bits, rank@);
    proof {
        assert forall|i: int| #![trigger a[i]] 0 <= i < a.len() implies {
            let h = hg(a[i]);
            &&& 0 <= h < rank@.len()
            &&& rank@[h] < s.len()
            &&& s[rank@[h] as int].key == a[i].chunks()[c]
            &&& s[rank@[h] as int].id == h
        } by {
            let h = hg(a[i]);
            lemma_hash_bound(a[i].chunks()[c], mul, bits);
            assert(a.take(n as int) =~= a);
            crate::order::lemma_filter_index(a, in_bucket(hg, h), i);
            assert(cnt@[h] as int == bucket(a, hg, h).len());
            assert(cnt@[h] > 0);
            let l = choose|l: int| 0 <= l < listed.len() && listed[l].id == h;
            let q = lemma_permutation_member(listed, s, l);
            assert(rank@[s[q].id as int] == q);
            assert(reps[hg(a[i])] == a[i].chunks()[c]);
        }
        assert forall|x: int, y: int| 0 <= x < y < s.len() implies (#[trigger] s[x]).key < (#[trigger] s[y]).key by {
            assert(elem_le::<Keyed>()(s[x], s[y]));
            lemma_keyed_le(s[x], s[y]);
            if s[x].key == s[y].key {
                lemma_same_bucket(a, c, mul, bits, cnt@, reps, s[x], s[y]);
            }
        }
        assert(dictionary(a, c, mul, bits, s, rank@));
        assert(counted(a, dg, m as nat, n as int, counts)) by {
            assert(a.take(n as int) =~= a);
            assert forall|b: int| 0 <= b < m implies (#[trigger] counts[b]) as int == bucket(a, dg, b).len() by {
                let h = s[b].id as int;
                assert(counts[b] == cnt@[h]);
                assert forall|i: int| 0 <= i < a.len() implies in_bucket(dg, b)(#[trigger] a[i]) == in_bucket(hg, h)(a[i]) by {
                    let q = rank@[hg(a[i])] as int;
                    if hg(a[i]) == h {
                        assert(s[q].id == s[b].id);
                    }
                    if q == b {
                        assert(s[q].id == hg(a[i]));
                    }
                }
                lemma_filter_agree(a, in_bucket(dg, b), in_bucket(hg, h));
                assert(cnt@[h] as int == bucket(a.take(n as int), hg, h).len());
            }
        }
        lemma_prefix_positions(a, dg, m as nat, counts, pos@);
    }
    tools.hooks.stat(Stat::RadixPasses, 1);
    dict_scatter(src, dst, chunk, mul, bits, &*rank, pos, &*cnt, &mut tools.hooks, Ghost(s));
    proof {
        lemma_used(a, hg, nb as nat, cnt@, nb as int);
        lemma_by_key_total(chunk_key::<T>(c));
        lemma_stably(by_key(chunk_key::<T>(c)), a, dst@);
    }
    if !free && result_in_src {
        copy_all(dst, src);
        note_copies(&*dst, 0, &*src, 0, n, &mut tools.hooks);
    }
    proof {
        lemma_record::<H>(tools.hooks.tally(), told);
    }
    Ok(Ran { sorted: true, mask: 0, in_src: !free && result_in_src })
}

/// A key has one bucket.
pub proof fn lemma_same_bucket<T: Elem>(a: Seq<T>, c: int, mul: u64, bits: u32, cnt: Seq<u32>, rep: Seq<u64>, x: Keyed, y: Keyed)
    requires
        bits == 11 || bits == 12,
        counted(a, hash_of::<T>(c, mul, bits), pow2(bits as nat), a.len() as int, cnt),
        keys_held(a, c, mul, bits, a.len() as int, rep),
        x.id < pow2(bits as nat),
        y.id < pow2(bits as nat),
        cnt[x.id as int] > 0,
        cnt[y.id as int] > 0,
        x.key == rep[x.id as int],
        y.key == rep[y.id as int],
        x.key == y.key,
    ensures
        x.id == y.id,
{
    let hg = hash_of::<T>(c, mul, bits);
    assert(a.take(a.len() as int) =~= a);
    assert(cnt[x.id as int] as int == bucket(a, hg, x.id as int).len());
    assert(cnt[y.id as int] as int == bucket(a, hg, y.id as int).len());
    let i = lemma_filter_member(a, in_bucket(hg, x.id as int), 0);
    let j = lemma_filter_member(a, in_bucket(hg, y.id as int), 0);
    assert(rep[hg(a[i])] == a[i].chunks()[c]);
    assert(rep[hg(a[j])] == a[j].chunks()[c]);
}

} // verus!
