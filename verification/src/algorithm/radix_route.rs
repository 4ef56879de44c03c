//! The radix route. A strided sample gives the median (split pivot), the
//! sampled varying-bit mask and key range, and whether keys repeat. When the
//! plan needs three passes or more and the data is unordered, the range is
//! split by the pivot into two parts through a buffer of about half the array,
//! and each part is radix sorted with the cheapest plan: the raw key, the
//! contiguous varying-bit range, only the varying bits, or key minus a base. A
//! plan made from the sample is verified inside the histogram pass and replaced
//! by the exact plan if a key contradicts it. Few distinct keys take a
//! dictionary radix. Parts beyond the cache are scattered once by their top
//! digit into cache-sized buckets first.
use crate::algorithm::{
    buffer_for, retold, retold_trail, track, trail, Scratch, Tools, Track, Trail, SAMPLE, SPLIT_MIN,
};
use crate::algorithm::dict::{
    dict_bits, dict_bucket, dict_entries, dict_hash, dict_sort, dict_track, dict_width, keys_apart,
    lemma_hash_bound, DICT_MAX_DISTINCT,
};
use crate::algorithm::exec::{
    chunk_key, chunk_ready, chunk_sorted, larger_asked, lemma_or_turn, lemma_table_room, plan_holds,
    radix_run, raw_within, run_out, run_track, table_room, varying, words_at, Ran,
};
use crate::algorithm::level::lemma_coarse_stable;
use crate::algorithm::partition::{few_keys, few_trail, first_above, partition_sort_few, upper_fits};
use crate::algorithm::plan::{
    choose_plan, passes_for, plan_of, widest, RadixPlan, RADIX_MAX_DIGIT, SPLIT_MAX_DIGIT,
    SPLIT_MIN_PASSES,
};
use crate::algorithm::scout::{compute_mask, mask_tally};
use crate::bits::{agree_outside, lemma_agree_or, lemma_agree_through};
use crate::cpu::Machine;
use crate::gather::lemma_filter_permutation;
use crate::order::{
    by_key, class, lemma_antisymmetric_stable, lemma_by_key_total, lemma_class_add,
    lemma_constant_count, lemma_filter_add, lemma_filter_all, lemma_filter_empty,
    lemma_filter_filter, lemma_filter_index, lemma_filter_member, lemma_filter_none,
    lemma_filter_push, lemma_filter_take, lemma_map_permutation, lemma_permutation_add,
    lemma_permutation_len, lemma_permutation_member, lemma_sorted_add, lemma_stable_add,
    lemma_stable_permutation, lemma_stable_trans, permutation, sorted, stable,
    stable_sort_is_unique, stably, tied_with,
};
use crate::radix::{copy_all, moved_tally};
use crate::view::{
    after_copies, agree_below, asks_for, asks_more, books, copy_forward, elem_le, insertion_sort,
    keeps_record, lemma_keyed_le, lemma_record, note_copies, note_key, too_large, truncated, Alloc,
    AllocError, Elem, Hooks, Keyed, NoHooks, Note, RadixKey, Stat,
};
use vstd::prelude::*;

verus! {

// ---- the sample ----------------------------------------------------------------------------------

/// What a strided sample of the range says: the median (the split pivot), the
/// sampled varying-bit mask and key range, and whether the sampled keys repeat
/// enough for the dictionary radix to be worth a try.
#[derive(Clone, Copy, Debug)]
pub struct Pivot {
    /// Sample size.
    pub n_sample: usize,
    /// Sample keys not below the pivot key.
    pub n_ge: usize,
    /// Bits that vary in the sample.
    pub sample_mask: u64,
    /// Smallest sampled key.
    pub smin: u64,
    /// Largest sampled key.
    pub smax: u64,
    /// Every sampled key is the same.
    pub all_equal: bool,
    /// Few distinct sampled keys and a collision-free bucket hash for them.
    pub dict: bool,
    /// The multiplier of that hash.
    pub dict_mul: u64,
    /// Distinct sampled keys, when counted (0: not counted); `few` holds up to
    /// four, ascending.
    pub n_distinct: usize,
    /// The first four distinct keys.
    pub few: [u64; 4],
    /// How often each of them was sampled.
    pub few_cnt: [usize; 4],
}

impl Default for Pivot {
    fn default() -> (r: Self)
        ensures
            r.n_sample == 0,
            r.n_ge == 0,
            r.sample_mask == 0,
            r.smin == 0,
            r.smax == 0,
            !r.all_equal,
            !r.dict,
            r.dict_mul == 0,
            r.n_distinct == 0,
            r.few@ == seq![0u64, 0u64, 0u64, 0u64],
            r.few_cnt@ == seq![0usize, 0usize, 0usize, 0usize],
    {
        let r = Pivot {
            n_sample: 0,
            n_ge: 0,
            sample_mask: 0,
            smin: 0,
            smax: 0,
            all_equal: false,
            dict: false,
            dict_mul: 0,
            n_distinct: 0,
            few: [0u64; 4],
            few_cnt: [0usize; 4],
        };
        assert(r.few@ =~= seq![0u64, 0u64, 0u64, 0u64]);
        assert(r.few_cnt@ =~= seq![0usize, 0usize, 0usize, 0usize]);
        r
    }
}

/// The step of the multiplier sequence.
pub const DICT_STEP: u64 = 0x9E37_79B9_7F4A_7C15;

/// How many multipliers are tried.
pub const DICT_TRIES: u64 = 32;

/// A scrambled word with its lowest bit set.
pub open spec fn scrambled(x: u64) -> u64 {
    let y = (x ^ (x >> 30u32)).wrapping_mul(0xBF58_476D_1CE4_E5B9);
    let z = (y ^ (y >> 27u32)).wrapping_mul(0x94D0_49BB_1331_11EB);
    (z ^ (z >> 31u32)) | 1
}

/// The multiplier number `i`.
pub open spec fn dict_mul_at(i: nat) -> u64 {
    scrambled(dict_seed(i))
}

/// The word that multiplier `i` is made from.
pub open spec fn dict_seed(i: nat) -> u64
    decreases i,
{
    if i == 0 {
        DICT_STEP.wrapping_add(DICT_STEP)
    } else {
        dict_seed((i - 1) as nat).wrapping_add(DICT_STEP)
    }
}

/// The bucket hash tells the keys apart.
pub open spec fn tells_apart(keys: Seq<u64>, mul: u64, bits: u32) -> bool {
    forall|i: int, j: int| 0 <= i < j < keys.len() ==> dict_hash(#[trigger] keys[i], mul, bits) != dict_hash(#[trigger] keys[j], mul, bits)
}

/// Whether the bucket hash of a multiplier tells the keys apart.
fn hash_is_injective(keys: &Vec<u64>, mul: u64, bits: u32) -> (r: bool)
    requires
        bits == 11 || bits == 12,
    ensures
        r == tells_apart(keys@, mul, bits),
{
    let mut seen: [bool; 4096] = [false; 4096];
    let mut i: usize = 0;
    while i < keys.len()
        invariant
            i <= keys@.len(),
            bits == 11 || bits == 12,
            forall|h: int| 0 <= h < 4096 ==> (#[trigger] seen@[h] <==> exists|j: int| 0 <= j < i && dict_hash(#[trigger] keys@[j], mul, bits) == h),
            forall|a: int, b: int| 0 <= a < b < i ==> dict_hash(#[trigger] keys@[a], mul, bits) != dict_hash(#[trigger] keys@[b], mul, bits),
        decreases keys@.len() - i,
    {
        let h: usize = dict_bucket(keys[i], mul, bits) as usize;
        proof {
            lemma_hash_bound(keys@[i as int], mul, bits);
        }
        if seen[h] {
            return false;
        }
        let ghost before = seen@;
        seen[h] = true;
        proof {
            assert forall|g: int| 0 <= g < 4096 implies (#[trigger] seen@[g] <==> exists|j: int| 0 <= j < i + 1 && dict_hash(#[trigger] keys@[j], mul, bits) == g) by {
                if seen@[g] {
                    if g == h {
                        assert(dict_hash(keys@[i as int], mul, bits) == g);
                    } else {
                        assert(before[g]);
                        let j = choose|j: int| 0 <= j < i && dict_hash(#[trigger] keys@[j], mul, bits) == g;
                        assert(dict_hash(keys@[j], mul, bits) == g);
                    }
                } else {
                    assert(!before[g]);
                }
            }
        }
        i += 1;
    }
    true
}

/// The first of the multipliers whose bucket hash tells the keys apart.
pub fn dict_pick(keys: &Vec<u64>, bits: u32) -> (r: Option<u64>)
    requires
        bits == 11 || bits == 12,
    ensures
        match r {
            Some(m) => exists|i: nat|
                i < DICT_TRIES && m == #[trigger] dict_mul_at(i) && tells_apart(keys@, m, bits) && forall|j: nat| j < i ==> !tells_apart(keys@, #[trigger] dict_mul_at(j), bits),
            None => forall|j: nat| j < DICT_TRIES ==> !tells_apart(keys@, #[trigger] dict_mul_at(j), bits),
        },
{
    let mut x: u64 = DICT_STEP.wrapping_add(DICT_STEP);
    let mut i: u64 = 0;
    while i < DICT_TRIES
        invariant
            i <= DICT_TRIES,
            bits == 11 || bits == 12,
            x == dict_seed(i as nat),
            forall|j: nat| j < i ==> !tells_apart(keys@, #[trigger] dict_mul_at(j), bits),
        decreases DICT_TRIES - i,
    {
        let y: u64 = (x ^ (x >> 30u32)).wrapping_mul(0xBF58_476D_1CE4_E5B9);
        let z: u64 = (y ^ (y >> 27u32)).wrapping_mul(0x94D0_49BB_1331_11EB);
        let m: u64 = (z ^ (z >> 31u32)) | 1;
        assert(m == dict_mul_at(i as nat));
        if hash_is_injective(keys, m, bits) {
            return Some(m);
        }
        x = x.wrapping_add(DICT_STEP);
        i += 1;
    }
    None
}

/// How many elements are sampled: one in 32, at most `SAMPLE`.
pub open spec fn sample_size(n: int) -> int {
    if n / 32 > SAMPLE {
        SAMPLE as int
    } else {
        n / 32
    }
}

/// Where sample `i` stands.
pub open spec fn sample_place(n: int, i: int) -> int {
    i * (n / sample_size(n)) + n / sample_size(n) / 2
}

/// The sampled keys.
pub open spec fn sample_of<T: Elem>(a: Seq<T>, c: int) -> Seq<u64> {
    Seq::new(sample_size(a.len() as int) as nat, |i: int| a[sample_place(a.len() as int, i)].chunks()[c])
}

/// `ks` lists the different words of `s`, ascending.
pub open spec fn distinct_list(s: Seq<u64>, ks: Seq<u64>) -> bool {
    &&& forall|i: int, j: int| 0 <= i < j < ks.len() ==> #[trigger] ks[i] < #[trigger] ks[j]
    &&& forall|x: u64| #[trigger] ks.contains(x) <==> s.contains(x)
}

/// The words not below `t`.
pub open spec fn words_from(t: u64) -> spec_fn(u64) -> bool {
    |x: u64| x >= t
}

/// `t` is the element in the middle of the sorted words.
pub open spec fn is_median(s: Seq<u64>, t: u64) -> bool {
    exists|ks: Seq<u64>| #[trigger] permutation(s, ks) && sorted(by_key(|x: u64| x as int), ks) && ks[ks.len() as int / 2] == t
}

proof fn lemma_sample_place(n: int, i: int)
    requires
        n >= 32,
        0 <= i < sample_size(n),
    ensures
        0 <= sample_place(n, i) < n,
        sample_size(n) >= 1,
        n / sample_size(n) >= 1,
{
    let k = sample_size(n);
    let st = n / k;
    assert(st >= 1 && st * k <= n) by (nonlinear_arith)
        requires
            st == n / k,
            1 <= k <= n,
    ;
    assert(i * st + st <= k * st) by (nonlinear_arith)
        requires
            i + 1 <= k,
            st >= 0,
    ;
    assert(i * st >= 0) by (nonlinear_arith)
        requires
            i >= 0,
            st >= 0,
    ;
    assert(k * st == st * k) by (nonlinear_arith);
}

/// `ks` are the different sampled keys, and what the sample says of them.
pub open spec fn tells_distinct(info: Pivot, sample: Seq<u64>, ks: Seq<u64>, bits: u32) -> bool {
    &&& distinct_list(sample, ks)
    &&& ks.len() == info.n_distinct
    &&& forall|j: int| 0 <= j < 4 && j < ks.len() ==> #[trigger] info.few[j] == ks[j] && info.few_cnt[j] == sample.to_multiset().count(ks[j])
    &&& info.dict <==> ks.len() <= DICT_MAX_DISTINCT && exists|j: nat| j < DICT_TRIES && tells_apart(ks, #[trigger] dict_mul_at(j), bits)
    &&& info.dict ==> exists|i: nat| #[trigger] first_multiplier(ks, bits, i, info.dict_mul)
}

/// Multiplier `i` is the first whose bucket hash tells the keys apart.
pub open spec fn first_multiplier(ks: Seq<u64>, bits: u32, i: nat, mul: u64) -> bool {
    i < DICT_TRIES && mul == dict_mul_at(i) && tells_apart(ks, mul, bits) && forall|j: nat| j < i ==> !tells_apart(ks, #[trigger] dict_mul_at(j), bits)
}

/// What the sample says of itself.
pub open spec fn describes(info: Pivot, sample: Seq<u64>, pk: u64, bits: u32) -> bool {
    &&& info.n_sample == sample.len()
    &&& info.sample_mask == varying(sample, sample.len() as int)
    &&& info.all_equal == (info.sample_mask == 0)
    &&& sample.contains(info.smin) && sample.contains(info.smax)
    &&& forall|i: int| 0 <= i < sample.len() ==> info.smin <= #[trigger] sample[i] <= info.smax
    &&& is_median(sample, pk)
    &&& info.n_ge == sample.filter(words_from(pk)).len()
    &&& info.n_distinct > 0 <==> info.sample_mask != 0 && sample.filter(equal_to(pk)).len() >= 2
    &&& info.n_distinct > 0 ==> exists|ks: Seq<u64>| #[trigger] tells_distinct(info, sample, ks, bits)
    &&& info.dict ==> info.n_distinct > 0
    &&& !info.dict ==> info.dict_mul == 0
    &&& forall|j: int| info.n_distinct <= j < 4 ==> #[trigger] info.few[j] == 0 && info.few_cnt[j] == 0
}

/// The words equal to `t`.
pub open spec fn equal_to(t: u64) -> spec_fn(u64) -> bool {
    |x: u64| x == t
}

/// A word repeats among sorted words where the one after its first place is
/// equal.
proof fn lemma_equal_count(s: Seq<u64>, first: int, t: u64)
    requires
        0 <= first < s.len(),
        sorted(by_key(|x: u64| x as int), s),
        s[first] == t,
        first > 0 ==> s[first - 1] != t,
    ensures
        s.filter(equal_to(t)).len() >= 2 <==> first + 1 < s.len() && s[first + 1] == t,
{
    let le = by_key(|x: u64| x as int);
    let p = equal_to(t);
    assert forall|i: int| 0 <= i < s.take(first).len() implies !p(#[trigger] s.take(first)[i]) by {
        assert(le(s[i], s[first - 1]));
        assert(le(s[first - 1], s[first]));
    }
    lemma_filter_none(s.take(first), p);
    lemma_filter_take(s, first, p);
    if first + 1 < s.len() && s[first + 1] == t {
        lemma_filter_take(s, first + 1, p);
        lemma_filter_split(s, first + 2, p);
    } else {
        lemma_filter_split(s, first + 1, p);
        assert forall|i: int| 0 <= i < s.skip(first + 1).len() implies !p(#[trigger] s.skip(first + 1)[i]) by {
            assert(le(s[first], s[first + 1]));
            assert(le(s[first + 1], s[first + 1 + i]));
        }
        lemma_filter_none(s.skip(first + 1), p);
    }
}

/// The keys of sorted samples.
spec fn keys_of(v: Seq<Keyed>) -> Seq<u64> {
    v.map_values(|x: Keyed| x.key)
}

/// The record once `i` keys were sampled; the first one is looked at twice.
pub open spec fn sample_tally<T: Elem, H: Hooks>(t: H::Tally, a: Seq<T>, c: int, i: int) -> H::Tally
    decreases i,
{
    if i <= 0 {
        t
    } else {
        let key = Note::Key(a[sample_place(a.len() as int, i - 1)].key_load(c) as u64);
        let before = if i == 1 {
            H::after(H::after(t, Note::Read), key)
        } else {
            sample_tally::<T, H>(t, a, c, i - 1)
        };
        H::after(H::after(before, Note::Read), key)
    }
}

/// Takes the sample.
#[verifier::rlimit(40)]
fn take_sample<T: Elem, H: Hooks>(a: &[T], chunk: u64, hooks: &mut H) -> (r: Vec<Keyed>)
    requires
        32 <= a@.len() <= 0xFFFF_FFFF,
        chunk_ready(a@, chunk as int),
    ensures
        keeps_record(*old(hooks), *final(hooks)),
        H::records() ==> final(hooks).tally() == sample_tally::<T, H>(old(hooks).tally(), a@, chunk as int, sample_size(a@.len() as int)),
        keys_of(r@) == sample_of(a@, chunk as int),
        r@.len() >= 1,
{
    let n: usize = a.len();
    let mut k: usize = n / 32;
    if k > SAMPLE {
        k = SAMPLE;
    }
    let stride: usize = n / k;
    let mut v: Vec<Keyed> = Vec::with_capacity(k);
    let mut i: usize = 0;
    let mut at: usize = stride / 2;
    proof {
        lemma_sample_place(n as int, 0);
    }
    while i < k
        invariant
            keeps_record(*old(hooks), *hooks),
            H::records() ==> hooks.tally() == sample_tally::<T, H>(old(hooks).tally(), a@, chunk as int, i as int),
            i <= k,
            n == a@.len(),
            32 <= n <= 0xFFFF_FFFF,
            k == sample_size(n as int),
            stride == n as int / k as int,
            chunk_ready(a@, chunk as int),
            i < k ==> at == sample_place(n as int, i as int),
            v@.len() == i,
            forall|j: int| 0 <= j < i ==> (#[trigger] v@[j]).key == a@[sample_place(n as int, j)].chunks()[chunk as int],
        decreases k - i,
    {
        proof {
            lemma_sample_place(n as int, i as int);
            if i + 1 < k {
                lemma_sample_place(n as int, i + 1);
                assert((i + 1) * stride == i * stride + stride) by (nonlinear_arith);
            }
        }
        let key: u64 = T::radix_key(a[at], chunk).to_u64();
        if i == 0 {
            hooks.on_read(a, at);
            note_key(a[at], chunk, hooks);
        }
        hooks.on_read(a, at);
        note_key(a[at], chunk, hooks);
        v.push(Keyed { key, id: i as u32 });
        i += 1;
        if i < k {
            at += stride;
        }
    }
    assert(keys_of(v@) =~= sample_of(a@, chunk as int));
    v
}

/// The varying bits, the smallest and the largest of the sampled keys.
fn measure_sample(v: &Vec<Keyed>) -> (r: (u64, u64, u64))
    requires
        v@.len() > 0,
    ensures
        r.0 == varying(keys_of(v@), v@.len() as int),
        keys_of(v@).contains(r.1),
        keys_of(v@).contains(r.2),
        forall|i: int| 0 <= i < v@.len() ==> r.1 <= #[trigger] keys_of(v@)[i] <= r.2,
{
    let ghost s = keys_of(v@);
    let k0: u64 = v[0].key;
    let mut m: u64 = 0;
    let mut lo: u64 = k0;
    let mut hi: u64 = k0;
    let mut i: usize = 0;
    assert(s[0] == k0);
    while i < v.len()
        invariant
            i <= v@.len() == s.len(),
            s == keys_of(v@),
            s.len() > 0,
            k0 == s[0],
            m == varying(s, i as int),
            s.contains(lo),
            s.contains(hi),
            forall|j: int| 0 <= j < i ==> lo <= #[trigger] s[j] <= hi,
        decreases v@.len() - i,
    {
        let k: u64 = v[i].key;
        assert(s[i as int] == k);
        m = m | (k ^ k0);
        if k < lo {
            lo = k;
        }
        if k > hi {
            hi = k;
        }
        i += 1;
    }
    (m, lo, hi)
}

/// The distinct keys of a sorted sample and how often the first four stand in
/// it.
#[verifier::rlimit(40)]
fn distinct_keys(v: &Vec<Keyed>) -> (r: (Vec<u64>, [usize; 4]))
    requires
        v@.len() > 0,
        sorted(by_key(|x: u64| x as int), keys_of(v@)),
    ensures
        distinct_list(keys_of(v@), r.0@),
        0 < r.0@.len() <= v@.len(),
        forall|j: int| 0 <= j < 4 && j < r.0@.len() ==> #[trigger] r.1[j] == keys_of(v@).to_multiset().count(r.0@[j]),
        forall|j: int| r.0@.len() <= j < 4 ==> #[trigger] r.1[j] == 0,
{
    let ghost s = keys_of(v@);
    let n: usize = v.len();
    let mut ks: Vec<u64> = Vec::new();
    let mut cnt: [usize; 4] = [0usize; 4];
    let mut i: usize = 0;
    while i < n
        invariant
            i <= n == v@.len() == s.len(),
            n > 0,
            s == keys_of(v@),
            sorted(by_key(|x: u64| x as int), s),
            ks@.len() <= i,
            i > 0 ==> ks@.len() > 0,
            forall|a: int, b: int| 0 <= a < b < ks@.len() ==> #[trigger] ks@[a] < #[trigger] ks@[b],
            forall|a: int| 0 <= a < ks@.len() ==> s.contains(#[trigger] ks@[a]) && (i < n ==> ks@[a] < s[i as int]),
            forall|j: int| 0 <= j < i ==> ks@.contains(#[trigger] s[j]),
            forall|j: int| 0 <= j < 4 && j < ks@.len() ==> #[trigger] cnt[j] == s.to_multiset().count(ks@[j]),
            forall|j: int| ks@.len() <= j < 4 ==> #[trigger] cnt[j] == 0,
        decreases n - i,
    {
        let k: u64 = v[i].key;
        assert(s[i as int] == k);
        let mut j: usize = i + 1;
        while j < n && v[j].key == k
            invariant
                i < j <= n == v@.len() == s.len(),
                s == keys_of(v@),
                forall|q: int| i <= q < j ==> #[trigger] s[q] == k,
            decreases n - j,
        {
            assert(s[j as int] == k);
            j += 1;
        }
        let d: usize = ks.len();
        if d < 4 {
            cnt[d] = j - i;
        }
        let ghost before = ks@;
        ks.push(k);
        proof {
            if j < n {
                assert(s[j as int] == v@[j as int].key);
                assert(by_key(|x: u64| x as int)(s[i as int], s[j as int]));
            }
            lemma_run_count(s, i as int, j as int, k);
            assert forall|q: int| 0 <= q < j implies ks@.contains(#[trigger] s[q]) by {
                if q < i {
                    let w = choose|w: int| 0 <= w < before.len() && before[w] == s[q];
                    assert(ks@[w] == s[q]);
                } else {
                    assert(ks@[d as int] == s[q]);
                }
            }
        }
        i = j;
    }
    proof {
        assert forall|x: u64| #[trigger] ks@.contains(x) <==> s.contains(x) by {}
    }
    (ks, cnt)
}

/// How often a key stands in sorted keys: the length of its run.
proof fn lemma_run_count(s: Seq<u64>, i: int, j: int, k: u64)
    requires
        0 <= i < j <= s.len(),
        sorted(by_key(|x: u64| x as int), s),
        forall|q: int| i <= q < j ==> #[trigger] s[q] == k,
        i > 0 ==> s[i - 1] != k,
        j < s.len() ==> s[j] != k,
    ensures
        s.to_multiset().count(k) == j - i,
{
    broadcast use vstd::seq_lib::group_to_multiset_ensures;

    let le = by_key(|x: u64| x as int);
    let a = s.take(i);
    let b = s.subrange(i, j);
    let c = s.skip(j);
    assert(s =~= (a + b) + c);
    vstd::seq_lib::lemma_multiset_commutative(a + b, c);
    vstd::seq_lib::lemma_multiset_commutative(a, b);
    lemma_constant_count(b, k);
    assert(!a.contains(k)) by {
        assert forall|q: int| 0 <= q < a.len() implies a[q] != k by {
            assert(le(s[q], s[i - 1]));
            assert(le(s[i - 1], s[i]));
        }
    }
    assert(!c.contains(k)) by {
        assert forall|q: int| 0 <= q < c.len() implies c[q] != k by {
            assert(le(s[j], s[q + j]));
            assert(le(s[j - 1], s[j]));
        }
    }
}

/// Place `i` is the first that holds the word `x`.
pub open spec fn first_of(s: Seq<u64>, i: int, x: u64) -> bool {
    s[i] == x && forall|j: int| 0 <= j < i ==> #[trigger] s[j] != x
}

/// The pivot, and what the sample says.
pub open spec fn picks<T: Elem>(a: Seq<T>, c: int, r: (T, Pivot)) -> bool {
    &&& exists|i: int| 0 <= i < sample_size(a.len() as int) && r.0 == a[#[trigger] sample_place(a.len() as int, i)] && first_of(sample_of(a, c), i, r.0.chunks()[c])
    &&& describes(r.1, sample_of(a, c), r.0.chunks()[c], dict_width::<T>())
}

/// The pivot of the elements, and what their sample says.
pub open spec fn pivot_of<T: Elem>(a: Seq<T>, c: int) -> (T, Pivot) {
    choose|r: (T, Pivot)| #[trigger] picks(a, c, r)
}

/// Two ascending lists of the same words are one.
proof fn lemma_distinct_unique(s: Seq<u64>, x: Seq<u64>, y: Seq<u64>)
    requires
        distinct_list(s, x),
        distinct_list(s, y),
    ensures
        x == y,
{
    let le = by_key(|w: u64| w as int);
    x.to_multiset_ensures();
    y.to_multiset_ensures();
    assert(x.no_duplicates() && y.no_duplicates());
    x.lemma_multiset_has_no_duplicates();
    y.lemma_multiset_has_no_duplicates();
    assert forall|w: u64| x.to_multiset().count(w) == y.to_multiset().count(w) by {
        assert(x.contains(w) <==> s.contains(w));
        assert(y.contains(w) <==> s.contains(w));
        if x.contains(w) {
            assert(x.to_multiset().count(w) == 1);
            assert(y.to_multiset().count(w) == 1);
        }
    }
    assert(x.to_multiset() =~= y.to_multiset());
    lemma_sorted_words(x, x, y);
}

/// Sorted words are determined by what they are.
proof fn lemma_sorted_words(s: Seq<u64>, x: Seq<u64>, y: Seq<u64>)
    requires
        permutation(s, x),
        permutation(s, y),
        sorted(by_key(|w: u64| w as int), x),
        sorted(by_key(|w: u64| w as int), y),
    ensures
        x == y,
{
    let f = |w: u64| w as int;
    let le = by_key(f);
    lemma_by_key_total(f);
    assert forall|v: u64, w: u64| #[trigger] le(v, w) && #[trigger] le(w, v) implies v == w by {}
    lemma_antisymmetric_stable(le, s, x);
    lemma_antisymmetric_stable(le, s, y);
    stable_sort_is_unique(le, s, x, y);
}

/// There is one pivot.
pub proof fn lemma_pivot<T: Elem>(a: Seq<T>, c: int, r: (T, Pivot))
    requires
        picks(a, c, r),
    ensures
        pivot_of(a, c) == r,
{
    let q = pivot_of(a, c);
    let s = sample_of(a, c);
    let (u, v) = (r.0.chunks()[c], q.0.chunks()[c]);
    let x = choose|x: Seq<u64>| #[trigger] permutation(s, x) && sorted(by_key(|w: u64| w as int), x) && x[x.len() as int / 2] == u;
    let y = choose|y: Seq<u64>| #[trigger] permutation(s, y) && sorted(by_key(|w: u64| w as int), y) && y[y.len() as int / 2] == v;
    lemma_sorted_words(s, x, y);
    let n = a.len() as int;
    let i = choose|i: int| 0 <= i < sample_size(n) && r.0 == a[#[trigger] sample_place(n, i)] && first_of(s, i, u);
    let j = choose|j: int| 0 <= j < sample_size(n) && q.0 == a[#[trigger] sample_place(n, j)] && first_of(s, j, v);
    if i < j {
        assert(s[i] != v);
    }
    if j < i {
        assert(s[j] != u);
    }
    let (d, e) = (r.1, q.1);
    assert(d.smin == e.smin && d.smax == e.smax) by {
        let k1 = choose|k: int| 0 <= k < s.len() && s[k] == d.smin;
        let k2 = choose|k: int| 0 <= k < s.len() && s[k] == e.smin;
        let k3 = choose|k: int| 0 <= k < s.len() && s[k] == d.smax;
        let k4 = choose|k: int| 0 <= k < s.len() && s[k] == e.smax;
        assert(e.smin <= s[k1] <= e.smax && d.smin <= s[k2] <= d.smax && e.smin <= s[k3] <= e.smax && d.smin <= s[k4] <= d.smax);
    }
    lemma_counts_unique(s, u, dict_width::<T>(), d, e);
    assert(d.few =~= e.few);
    assert(d.few_cnt =~= e.few_cnt);
}

/// What the sample says of repeated keys is determined.
proof fn lemma_counts_unique(s: Seq<u64>, pk: u64, bits: u32, d: Pivot, e: Pivot)
    requires
        describes(d, s, pk, bits),
        describes(e, s, pk, bits),
    ensures
        d.n_distinct == e.n_distinct,
        d.dict == e.dict,
        d.dict_mul == e.dict_mul,
        forall|j: int| 0 <= j < 4 ==> #[trigger] d.few[j] == e.few[j],
        forall|j: int| 0 <= j < 4 ==> #[trigger] d.few_cnt[j] == e.few_cnt[j],
{
    if d.n_distinct > 0 {
        let x = choose|ks: Seq<u64>| #[trigger] tells_distinct(d, s, ks, bits);
        let y = choose|ks: Seq<u64>| #[trigger] tells_distinct(e, s, ks, bits);
        lemma_distinct_unique(s, x, y);
        assert forall|j: int| 0 <= j < 4 implies #[trigger] d.few[j] == e.few[j] && d.few_cnt[j] == e.few_cnt[j] by {
            if j < x.len() {
                assert(d.few[j] == x[j] && e.few[j] == y[j]);
            }
        }
        assert forall|j: int| 0 <= j < 4 implies #[trigger] d.few_cnt[j] == e.few_cnt[j] by {
            assert(d.few[j] == e.few[j]);
        }
        if d.dict {
            let i = choose|i: nat| #[trigger] first_multiplier(x, bits, i, d.dict_mul);
            let k = choose|i: nat| #[trigger] first_multiplier(y, bits, i, e.dict_mul);
            if i < k {
                assert(!tells_apart(y, dict_mul_at(i), bits));
            }
            if k < i {
                assert(!tells_apart(x, dict_mul_at(k), bits));
            }
        }
    } else {
        assert forall|j: int| 0 <= j < 4 implies #[trigger] d.few_cnt[j] == e.few_cnt[j] by {
            assert(d.few[j] == e.few[j]);
        }
    }
}

/// Pivot for the split: the median radix key of a strided sample.
/// Deterministic, O(sample). For chunked keys the sample is taken on the
/// current chunk. The pivot is the first sample element with the median key. If
/// the median key repeats in the sample, the distinct sampled keys are counted
/// and, if there are few, a dictionary hash is prepared for them.
#[verifier::rlimit(40)]
pub fn pick_pivot<T: Elem, H: Hooks>(a: &[T], chunk: u64, hooks: &mut H) -> (r: (T, Pivot))
    requires
        32 <= a@.len() <= 0xFFFF_FFFF,
        chunk_ready(a@, chunk as int),
    ensures
        keeps_record(*old(hooks), *final(hooks)),
        H::records() ==> final(hooks).tally() == sample_tally::<T, H>(old(hooks).tally(), a@, chunk as int, sample_size(a@.len() as int)),
        a@.contains(r.0),
        exists|i: int| 0 <= i < sample_size(a@.len() as int) && r.0 == a@[#[trigger] sample_place(a@.len() as int, i)] && first_of(sample_of(a@, chunk as int), i, r.0.chunks()[chunk as int]),
        describes(r.1, sample_of(a@, chunk as int), r.0.chunks()[chunk as int], dict_width::<T>()),
        r == pivot_of(a@, chunk as int),
{
    let n: usize = a.len();
    let ghost c = chunk as int;
    let ghost sample = sample_of(a@, c);
    let mut v: Vec<Keyed> = take_sample(a, chunk, hooks);
    let k: usize = v.len();
    let (m, lo, hi) = measure_sample(&v);
    let ghost raw = v@;
    let mut quiet: NoHooks = NoHooks;
    insertion_sort(&mut v, &mut quiet);
    let ghost ks = keys_of(v@);
    proof {
        lemma_map_permutation(raw, v@, |x: Keyed| x.key);
        lemma_permutation_len(raw, v@);
        assert forall|i: int, j: int| 0 <= i <= j < ks.len() implies by_key(|x: u64| x as int)(#[trigger] ks[i], #[trigger] ks[j]) by {
            assert(elem_le::<Keyed>()(v@[i], v@[j]));
            lemma_keyed_le(v@[i], v@[j]);
        }
    }
    let pk: u64 = v[k / 2].key;
    assert(ks[k as int / 2] == pk);
    let mut first: usize = k / 2;
    while first > 0 && v[first - 1].key == pk
        invariant
            keeps_record(*old(hooks), *hooks),
            H::records() ==> hooks.tally() == sample_tally::<T, H>(old(hooks).tally(), a@, chunk as int, sample_size(a@.len() as int)),
            first <= k / 2,
            k == v@.len() == ks.len(),
            k >= 1,
            ks == keys_of(v@),
            ks[first as int] == pk,
        decreases first,
    {
        first -= 1;
    }
    proof {
        if first > 0 {
            assert(ks[first - 1] == v@[first - 1].key);
        }
        lemma_from_count(ks, first as int, pk);
        lemma_filter_permutation(sample, ks, words_from(pk));
        lemma_filter_permutation(sample, ks, equal_to(pk));
        lemma_equal_count(ks, first as int, pk);
    }
    let n_ge: usize = k - first;
    let repeats = first + 1 < k && v[first + 1].key == pk;
    let mut info = Pivot::default();
    info.n_sample = k;
    info.n_ge = n_ge;
    info.sample_mask = m;
    info.all_equal = m == 0;
    info.smin = lo;
    info.smax = hi;
    if repeats && m != 0 {
        let (dk, cnt) = distinct_keys(&v);
        let d: usize = dk.len();
        let mut j: usize = 0;
        while j < 4
            invariant
                keeps_record(*old(hooks), *hooks),
            H::records() ==> hooks.tally() == sample_tally::<T, H>(old(hooks).tally(), a@, chunk as int, sample_size(a@.len() as int)),
                j <= 4,
                d == dk@.len(),
                d > 0,
                forall|q: int| 0 <= q < j && q < d ==> info.few[q] == #[trigger] dk@[q],
                forall|q: int| 0 <= q < 4 && (j <= q || d <= q) ==> #[trigger] info.few[q] == 0,
                info.dict_mul == 0,
                info.n_sample == k,
                info.n_ge == n_ge,
                info.sample_mask == m,
                info.all_equal == (m == 0),
                info.smin == lo,
                info.smax == hi,
                !info.dict,
            decreases 4 - j,
        {
            if j < d {
                info.few[j] = dk[j];
            }
            j += 1;
        }
        info.few_cnt = cnt;
        info.n_distinct = d;
        if d <= DICT_MAX_DISTINCT {
            match dict_pick(&dk, dict_bits::<T>()) {
                Some(mul) => {
                    info.dict = true;
                    info.dict_mul = mul;
                },
                None => {},
            }
        }
        proof {
            assert(distinct_list(sample, dk@)) by {
                assert forall|x: u64| #[trigger] dk@.contains(x) <==> sample.contains(x) by {
                    if ks.contains(x) {
                        let q = choose|q: int| 0 <= q < ks.len() && ks[q] == x;
                        let w = lemma_permutation_member(ks, sample, q);
                        assert(sample[w] == x);
                    }
                    if sample.contains(x) {
                        let q = choose|q: int| 0 <= q < sample.len() && sample[q] == x;
                        let w = lemma_permutation_member(sample, ks, q);
                        assert(ks[w] == x);
                    }
                }
            }
            if info.dict {
                let i = choose|i: nat|
                    i < DICT_TRIES && info.dict_mul == #[trigger] dict_mul_at(i) && tells_apart(dk@, info.dict_mul, dict_width::<T>()) && forall|j: nat|
                        j < i ==> !tells_apart(dk@, #[trigger] dict_mul_at(j), dict_width::<T>());
                assert(first_multiplier(dk@, dict_width::<T>(), i, info.dict_mul));
            }
            assert(tells_distinct(info, sample, dk@, dict_width::<T>()));
        }
    }
    let stride: usize = n / k;
    let mut at: usize = stride / 2;
    let mut i: usize = 0;
    proof {
        lemma_sample_place(n as int, 0);
        let w = lemma_permutation_member(ks, sample, k as int / 2);
        assert(sample[w] == pk);
    }
    let mut pivot: T = a[at];
    let mut done = T::radix_key(pivot, chunk).to_u64() == pk;
    while !done
        invariant
            keeps_record(*old(hooks), *hooks),
            H::records() ==> hooks.tally() == sample_tally::<T, H>(old(hooks).tally(), a@, chunk as int, sample_size(a@.len() as int)),
            n == a@.len(),
            32 <= n <= 0xFFFF_FFFF,
            k == sample_size(n as int) == sample.len(),
            stride == n as int / k as int,
            c == chunk,
            chunk_ready(a@, c),
            sample == sample_of(a@, c),
            i < k,
            at == sample_place(n as int, i as int),
            at < n,
            pivot == a@[at as int],
            exists|w: int| 0 <= w < sample.len() && #[trigger] sample[w] == pk,
            forall|w: int| 0 <= w < i ==> #[trigger] sample[w] != pk,
            done == (pivot.chunks()[c] == pk),
        decreases
            k - i + (if done {
                0int
            } else {
                1int
            }),
    {
        proof {
            assert(sample[i as int] != pk);
            let w = choose|w: int| 0 <= w < sample.len() && #[trigger] sample[w] == pk;
            assert(w > i);
            lemma_sample_place(n as int, i + 1);
            assert((i + 1) * stride == i * stride + stride) by (nonlinear_arith);
        }
        i += 1;
        at += stride;
        pivot = a[at];
        done = T::radix_key(pivot, chunk).to_u64() == pk;
    }
    proof {
        assert(first_of(sample, i as int, pk));
        assert(pivot == a@[sample_place(n as int, i as int)]);
        lemma_pivot(a@, c, (pivot, info));
    }
    (pivot, info)
}

/// How many sorted words are not below one of them: those from its first place
/// on.
proof fn lemma_from_count(s: Seq<u64>, first: int, t: u64)
    requires
        0 <= first < s.len(),
        sorted(by_key(|x: u64| x as int), s),
        s[first] == t,
        first > 0 ==> s[first - 1] != t,
    ensures
        s.filter(words_from(t)).len() == s.len() - first,
{
    let le = by_key(|x: u64| x as int);
    let p = words_from(t);
    lemma_filter_split(s, first, p);
    assert forall|i: int| 0 <= i < s.take(first).len() implies !p(#[trigger] s.take(first)[i]) by {
        assert(le(s[i], s[first - 1]));
        assert(le(s[first - 1], s[first]));
    }
    lemma_filter_none(s.take(first), p);
    assert forall|i: int| 0 <= i < s.skip(first).len() implies p(#[trigger] s.skip(first)[i]) by {
        assert(le(s[first], s[i + first]));
    }
    lemma_filter_all(s.skip(first), p);
}

// ---- splitting -----------------------------------------------------------------------------------

/// The predicate "chunk `c` is below `t`".
pub open spec fn below<T: Elem>(c: int, t: u64) -> spec_fn(T) -> bool {
    |x: T| x.chunks()[c] < t
}

/// The predicate "chunk `c` is not below `t`".
pub open spec fn not_below<T: Elem>(c: int, t: u64) -> spec_fn(T) -> bool {
    |x: T| x.chunks()[c] >= t
}

/// Putting the elements below a key in front moves no tied elements.
pub proof fn lemma_partition_stable<T: Elem>(s: Seq<T>, c: int, t: u64)
    ensures
        stable(by_key(chunk_key(c)), s, s.filter(below(c, t)) + s.filter(not_below(c, t))),
        permutation(s, s.filter(below(c, t)) + s.filter(not_below(c, t))),
        s.filter(below(c, t)).len() + s.filter(not_below(c, t)).len() == s.len(),
{
    let le = by_key(chunk_key::<T>(c));
    let lt = below::<T>(c, t);
    let ge = not_below::<T>(c, t);
    let l = s.filter(lt);
    let g = s.filter(ge);
    assert forall|x: T| #![trigger class(le, s, x)] class(le, s, x) == class(le, l + g, x) by {
        let p = tied_with(le, x);
        lemma_class_add(le, l, g, x);
        if lt(x) {
            assert forall|y: T| #[trigger] p(y) == (lt(y) && p(y)) by {}
            lemma_filter_filter(s, lt, p, p);
            assert forall|i: int| 0 <= i < g.len() implies !p(#[trigger] g[i]) by {
                let k = lemma_filter_member(s, ge, i);
            }
            lemma_filter_none(g, p);
            assert(class(le, l + g, x) =~= class(le, s, x));
        } else {
            assert forall|y: T| #[trigger] p(y) == (ge(y) && p(y)) by {}
            lemma_filter_filter(s, ge, p, p);
            assert forall|i: int| 0 <= i < l.len() implies !p(#[trigger] l[i]) by {
                let k = lemma_filter_member(s, lt, i);
            }
            lemma_filter_none(l, p);
            assert(class(le, l + g, x) =~= class(le, s, x));
        }
    }
    lemma_by_key_total(chunk_key::<T>(c));
    lemma_stable_permutation(le, s, l + g);
}

/// What a split did.
#[derive(Clone, Copy, Debug)]
pub struct Split {
    /// The buffer was large enough.
    pub fits: bool,
    /// The number of elements not below the pivot.
    pub n_ge: usize,
    /// The varying bits of the keys, where the split succeeded.
    pub mask: u64,
}

/// The first of the elements from `i` on that finds the buffer full, where it holds
/// `b` of its `cap` elements; the end where none does.
pub open spec fn overflow_at<T: Elem>(s: Seq<T>, c: int, pk: u64, cap: int, i: int, b: int) -> int
    decreases s.len() - i,
{
    if i >= s.len() {
        i
    } else if s[i].chunks()[c] < pk {
        overflow_at(s, c, pk, cap, i + 1, b)
    } else if b >= cap {
        i
    } else {
        overflow_at(s, c, pk, cap, i + 1, b + 1)
    }
}

/// The record of splitting the elements from `i` on, where the buffer holds `b` of
/// its `cap` elements.
pub open spec fn forward_split<T: Elem, H: Hooks>(t: H::Tally, s: Seq<T>, c: int, pk: u64, cap: int, i: int, b: int) -> H::Tally
    decreases s.len() - i,
{
    if i >= s.len() {
        t
    } else {
        let seen = H::after(H::after(t, Note::Read), Note::Key(s[i].key_load(c) as u64));
        if s[i].chunks()[c] < pk {
            forward_split::<T, H>(H::after(seen, Note::Write), s, c, pk, cap, i + 1, b)
        } else if b >= cap {
            after_copies::<H>(seen, b)
        } else {
            forward_split::<T, H>(H::after(seen, Note::Write), s, c, pk, cap, i + 1, b + 1)
        }
    }
}

/// The record of splitting the elements before `i` from the back, where the buffer
/// has room for `b` more.
pub open spec fn backward_split<T: Elem, H: Hooks>(t: H::Tally, s: Seq<T>, c: int, pk: u64, cap: int, i: int, b: int) -> H::Tally
    decreases i,
{
    if i <= 0 {
        t
    } else {
        let seen = H::after(H::after(t, Note::Read), Note::Key(s[i - 1].key_load(c) as u64));
        if s[i - 1].chunks()[c] >= pk {
            backward_split::<T, H>(H::after(seen, Note::Write), s, c, pk, cap, i - 1, b)
        } else if b <= 0 {
            after_copies::<H>(seen, cap - b)
        } else {
            backward_split::<T, H>(H::after(seen, Note::Write), s, c, pk, cap, i - 1, b - 1)
        }
    }
}

/// The record of a split: the first key is looked at, then the elements are taken
/// in turn.
pub open spec fn split_tally<T: Elem, H: Hooks>(t: H::Tally, s: Seq<T>, c: int, pk: u64, cap: int, forward: bool) -> H::Tally {
    let seen = H::after(H::after(t, Note::Read), Note::Key(s[0].key_load(c) as u64));
    if forward {
        forward_split::<T, H>(seen, s, c, pk, cap, 0, 0)
    } else {
        backward_split::<T, H>(seen, s, c, pk, cap, s.len() as int, cap)
    }
}

/// What a forward split whose buffer overflows leaves: the elements before that
/// are parted, the others stand as they stood.
pub open spec fn half_split<T: Elem>(s: Seq<T>, c: int, pk: u64, cap: int) -> Seq<T> {
    let i = overflow_at(s, c, pk, cap, 0, 0);
    s.take(i).filter(below(c, pk)) + s.take(i).filter(not_below(c, pk)) + s.skip(i)
}

/// Where the elements not below the pivot overflow a backward split.
pub open spec fn overflow_back<T: Elem>(s: Seq<T>, c: int, pk: u64, i: int, b: int) -> int
    decreases i,
{
    if i <= 0 {
        i
    } else if s[i - 1].chunks()[c] >= pk {
        overflow_back(s, c, pk, i - 1, b)
    } else if b <= 0 {
        i
    } else {
        overflow_back(s, c, pk, i - 1, b - 1)
    }
}

/// What a backward split whose buffer overflows leaves.
pub open spec fn half_split_back<T: Elem>(s: Seq<T>, c: int, pk: u64, cap: int) -> Seq<T> {
    let i = overflow_back(s, c, pk, s.len() as int, cap);
    s.take(i) + (s.skip(i).filter(below(c, pk)) + s.skip(i).filter(not_below(c, pk)))
}

/// Stable two-way split of `a` by the key of chunk `chunk`: the elements below
/// `pk` are compacted in place, the others go to the front of `buf`. If the
/// buffer overflows (the sample misjudged which side is smaller), the buffered
/// elements are copied into the gap they came from - a stable partial
/// partition; the opposite direction then fits.
#[verifier::rlimit(40)]
pub fn split_forward_scalar<T: Elem, H: Hooks>(a: &mut [T], buf: &mut [T], pk: u64, chunk: u64, hooks: &mut H) -> (r: Split)
    requires
        old(a)@.len() > 0,
        chunk_ready(old(a)@, chunk as int),
    ensures
        keeps_record(*old(hooks), *final(hooks)),
        H::records() ==> final(hooks).tally() == split_tally::<T, H>(old(hooks).tally(), old(a)@, chunk as int, pk, old(buf)@.len() as int, true),
        !r.fits ==> final(a)@ == half_split(old(a)@, chunk as int, pk, old(buf)@.len() as int),
        final(a)@.len() == old(a)@.len(),
        final(buf)@.len() == old(buf)@.len(),
        r.fits <==> old(a)@.filter(not_below(chunk as int, pk)).len() <= old(buf)@.len(),
        r.fits ==> r.n_ge == old(a)@.filter(not_below(chunk as int, pk)).len(),
        r.fits ==> final(a)@.take(old(a)@.len() - r.n_ge) == old(a)@.filter(below(chunk as int, pk)),
        r.fits ==> final(buf)@.take(r.n_ge as int) == old(a)@.filter(not_below(chunk as int, pk)),
        r.fits ==> r.n_ge <= old(a)@.len() && raw_within(old(a)@, chunk as int, r.mask),
        r.fits ==> r.mask == varying(words_at(old(a)@, chunk as int), old(a)@.len() as int),
        !r.fits ==> stable(by_key(chunk_key(chunk as int)), old(a)@, final(a)@) && permutation(old(a)@, final(a)@),
{
    let n: usize = a.len();
    let cap: usize = buf.len();
    let ghost o = a@;
    let ghost c = chunk as int;
    let ghost lt = below::<T>(c, pk);
    let ghost ge = not_below::<T>(c, pk);
    let ghost ks = words_at(o, c);
    let k0: u64 = T::radix_key(a[0], chunk).to_u64();
    hooks.on_read(&*a, 0);
    note_key(a[0], chunk, hooks);
    let mut m: u64 = 0;
    let mut w: usize = 0;
    let mut b: usize = 0;
    let mut i: usize = 0;
    let mut full = false;
    proof {
        assert(o.take(0) =~= Seq::<T>::empty());
        lemma_filter_empty(lt);
        lemma_filter_empty(ge);
        assert(a@.take(0) =~= Seq::<T>::empty());
        assert(buf@.take(0) =~= Seq::<T>::empty());
    }
    while i < n && !full
        invariant
            keeps_record(*old(hooks), *hooks),
            H::records() && !full ==> split_tally::<T, H>(old(hooks).tally(), o, c, pk, cap as int, true) == forward_split::<T, H>(hooks.tally(), o, c, pk, cap as int, i as int, b as int),
            H::records() && full ==> split_tally::<T, H>(old(hooks).tally(), o, c, pk, cap as int, true) == after_copies::<H>(hooks.tally(), b as int),
            overflow_at(o, c, pk, cap as int, 0, 0) == overflow_at(o, c, pk, cap as int, i as int, b as int),
            i <= n == o.len() == a@.len(),
            cap == buf@.len() == old(buf)@.len(),
            w + b == i,
            b <= cap,
            c == chunk,
            chunk_ready(o, c),
            lt == below::<T>(c, pk),
            ge == not_below::<T>(c, pk),
            a@.take(w as int) == o.take(i as int).filter(lt),
            buf@.take(b as int) == o.take(i as int).filter(ge),
            forall|k: int| i <= k < n ==> a@[k] == o[k],
            forall|k: int| 0 <= k < i ==> agree_outside((#[trigger] o[k]).chunks()[c], k0, m),
            ks == words_at(o, c),
            k0 == ks[0],
            m == varying(ks, i as int),
            full ==> i < n && b == cap && ge(o[i as int]),
        decreases
            n - i + (if full {
                0int
            } else {
                1int
            }),
    {
        let e: T = a[i];
        assert(e == o[i as int]);
        let k: u64 = T::radix_key(e, chunk).to_u64();
        hooks.on_read(&*a, i);
        note_key(e, chunk, hooks);
        proof {
            lemma_filter_take(o, i as int, lt);
            lemma_filter_take(o, i as int, ge);
            lemma_agree_or(k, k0, m, 0);
            assert(ks[i as int] == k);
            assert forall|j: int| 0 <= j < i implies agree_outside((#[trigger] o[j]).chunks()[c], k0, m | (k ^ k0)) by {
                lemma_agree_or(o[j].chunks()[c], k0, m, k ^ k0);
            }
        }
        let ghost a0 = a@;
        let ghost b0 = buf@;
        if k >= pk {
            if b == cap {
                full = true;
            } else {
                buf[b] = e;
                hooks.on_write(&*buf, b);
                b += 1;
                m = m | (k ^ k0);
                i += 1;
                assert(buf@.take(b as int) =~= b0.take(b - 1).push(e));
            }
        } else {
            a[w] = e;
            hooks.on_write(&*a, w);
            w += 1;
            m = m | (k ^ k0);
            i += 1;
            assert(a@.take(w as int) =~= a0.take(w - 1).push(e));
        }
    }
    assert(o.take(n as int) =~= o);
    if full {
        copy_forward(buf, 0, a, w, b);
        note_copies(&*buf, 0, &*a, w, b, hooks);
        proof {
            let f = o.take(i as int);
            let r = o.skip(i as int);
            lemma_filter_split(o, i as int, ge);
            lemma_filter_index(r, ge, 0);
            lemma_partition_stable(f, c, pk);
            let le = by_key(chunk_key::<T>(c));
            lemma_stable_add(le, f, r, f.filter(lt) + f.filter(ge), r);
            lemma_permutation_add(f, r, f.filter(lt) + f.filter(ge), r);
            assert(f + r =~= o);
            assert(a@ =~= (f.filter(lt) + f.filter(ge)) + r);
        }
        return Split { fits: false, n_ge: 0, mask: 0 };
    }
    proof {
        lemma_partition_stable(o, c, pk);
        assert forall|i: int, j: int| 0 <= i < o.len() && 0 <= j < o.len() implies agree_outside((#[trigger] o[i]).chunks()[c], (#[trigger] o[j]).chunks()[c], m) by {
            lemma_agree_through(o[i].chunks()[c], o[j].chunks()[c], k0, m);
        }
    }
    Split { fits: true, n_ge: b, mask: m }
}

pub proof fn lemma_filter_split<T>(s: Seq<T>, i: int, p: spec_fn(T) -> bool)
    requires
        0 <= i <= s.len(),
    ensures
        s.filter(p) == s.take(i).filter(p) + s.skip(i).filter(p),
{
    assert(s =~= s.take(i) + s.skip(i));
    lemma_filter_add(s.take(i), s.skip(i), p);
}

/// The backward split: the elements below the pivot go to the back of the
/// buffer, the others are compacted to the back of `a`.
#[verifier::rlimit(40)]
pub fn split_backward_scalar<T: Elem, H: Hooks>(a: &mut [T], buf: &mut [T], pk: u64, chunk: u64, hooks: &mut H) -> (r: Split)
    requires
        old(a)@.len() > 0,
        chunk_ready(old(a)@, chunk as int),
    ensures
        keeps_record(*old(hooks), *final(hooks)),
        H::records() ==> final(hooks).tally() == split_tally::<T, H>(old(hooks).tally(), old(a)@, chunk as int, pk, old(buf)@.len() as int, false),
        !r.fits ==> final(a)@ == half_split_back(old(a)@, chunk as int, pk, old(buf)@.len() as int),
        final(a)@.len() == old(a)@.len(),
        final(buf)@.len() == old(buf)@.len(),
        r.fits <==> old(a)@.filter(below(chunk as int, pk)).len() <= old(buf)@.len(),
        r.fits ==> r.n_ge == old(a)@.filter(not_below(chunk as int, pk)).len(),
        r.fits ==> final(a)@.skip(old(a)@.len() - r.n_ge) == old(a)@.filter(not_below(chunk as int, pk)),
        r.fits ==> final(buf)@.skip(old(buf)@.len() - (old(a)@.len() - r.n_ge)) == old(a)@.filter(below(chunk as int, pk)),
        r.fits ==> r.n_ge <= old(a)@.len() && raw_within(old(a)@, chunk as int, r.mask),
        r.fits ==> r.mask == varying(words_at(old(a)@, chunk as int), old(a)@.len() as int),
        !r.fits ==> stable(by_key(chunk_key(chunk as int)), old(a)@, final(a)@) && permutation(old(a)@, final(a)@),
{
    let n: usize = a.len();
    let cap: usize = buf.len();
    let ghost o = a@;
    let ghost c = chunk as int;
    let ghost lt = below::<T>(c, pk);
    let ghost ge = not_below::<T>(c, pk);
    let ghost ks = words_at(o, c);
    let k0: u64 = T::radix_key(a[0], chunk).to_u64();
    hooks.on_read(&*a, 0);
    note_key(a[0], chunk, hooks);
    let mut m: u64 = 0;
    let mut w: usize = n;
    let mut b: usize = cap;
    let mut i: usize = n;
    let mut full = false;
    proof {
        assert(o.skip(n as int) =~= Seq::<T>::empty());
        lemma_or_turn(varying(ks, n as int), 0, 0);
        lemma_filter_empty(lt);
        lemma_filter_empty(ge);
        assert(a@.skip(n as int) =~= Seq::<T>::empty());
        assert(buf@.skip(cap as int) =~= Seq::<T>::empty());
    }
    while i > 0 && !full
        invariant
            keeps_record(*old(hooks), *hooks),
            H::records() && !full ==> split_tally::<T, H>(old(hooks).tally(), o, c, pk, cap as int, false) == backward_split::<T, H>(hooks.tally(), o, c, pk, cap as int, i as int, b as int),
            H::records() && full ==> split_tally::<T, H>(old(hooks).tally(), o, c, pk, cap as int, false) == after_copies::<H>(hooks.tally(), cap - b),
            overflow_back(o, c, pk, n as int, cap as int) == overflow_back(o, c, pk, i as int, b as int),
            i <= n == o.len() == a@.len(),
            cap == buf@.len() == old(buf)@.len(),
            (n - w) + (cap - b) == n - i,
            i <= w <= n,
            b <= cap,
            c == chunk,
            chunk_ready(o, c),
            lt == below::<T>(c, pk),
            ge == not_below::<T>(c, pk),
            a@.skip(w as int) == o.skip(i as int).filter(ge),
            buf@.skip(b as int) == o.skip(i as int).filter(lt),
            forall|k: int| 0 <= k < i ==> a@[k] == o[k],
            forall|k: int| i <= k < n ==> agree_outside((#[trigger] o[k]).chunks()[c], k0, m),
            ks == words_at(o, c),
            k0 == ks[0],
            varying(ks, i as int) | m == varying(ks, n as int),
            full ==> i > 0 && b == 0 && lt(o[i - 1]),
        decreases
            i + (if full {
                0int
            } else {
                1int
            }),
    {
        let e: T = a[i - 1];
        assert(e == o[i - 1]);
        let k: u64 = T::radix_key(e, chunk).to_u64();
        hooks.on_read(&*a, i - 1);
        note_key(e, chunk, hooks);
        proof {
            lemma_filter_first(o, i - 1, lt);
            lemma_filter_first(o, i - 1, ge);
            lemma_agree_or(k, k0, m, 0);
            assert(ks[i - 1] == k);
            lemma_or_turn(varying(ks, i - 1), k ^ k0, m);
            assert forall|j: int| i <= j < n implies agree_outside((#[trigger] o[j]).chunks()[c], k0, m | (k ^ k0)) by {
                lemma_agree_or(o[j].chunks()[c], k0, m, k ^ k0);
            }
        }
        let ghost a0 = a@;
        let ghost b0 = buf@;
        if k >= pk {
            w -= 1;
            a[w] = e;
            hooks.on_write(&*a, w);
            m = m | (k ^ k0);
            i -= 1;
            assert(a@.skip(w as int) =~= seq![e] + a0.skip(w + 1));
        } else {
            if b == 0 {
                full = true;
            } else {
                b -= 1;
                buf[b] = e;
                hooks.on_write(&*buf, b);
                m = m | (k ^ k0);
                i -= 1;
                assert(buf@.skip(b as int) =~= seq![e] + b0.skip(b + 1));
            }
        }
    }
    assert(o.skip(0) =~= o);
    proof {
        lemma_or_turn(m, 0, 0);
    }
    if full {
        copy_forward(buf, b, a, i, cap - b);
        note_copies(&*buf, b, &*a, i, cap - b, hooks);
        proof {
            let f = o.take(i as int);
            let r = o.skip(i as int);
            lemma_filter_split(o, i as int, lt);
            lemma_filter_index(f, lt, i - 1);
            lemma_partition_stable(r, c, pk);
            let le = by_key(chunk_key::<T>(c));
            lemma_stable_add(le, f, r, f, r.filter(lt) + r.filter(ge));
            lemma_permutation_add(f, r, f, r.filter(lt) + r.filter(ge));
            assert(f + r =~= o);
            assert(buf@.subrange(b as int, cap as int) =~= buf@.skip(b as int));
            assert(a@ =~= f + (r.filter(lt) + r.filter(ge)));
        }
        return Split { fits: false, n_ge: 0, mask: 0 };
    }
    proof {
        lemma_partition_stable(o, c, pk);
        assert forall|i: int, j: int| 0 <= i < o.len() && 0 <= j < o.len() implies agree_outside((#[trigger] o[i]).chunks()[c], (#[trigger] o[j]).chunks()[c], m) by {
            lemma_agree_through(o[i].chunks()[c], o[j].chunks()[c], k0, m);
        }
    }
    Split { fits: true, n_ge: n - w, mask: m }
}

proof fn lemma_filter_first<T>(s: Seq<T>, i: int, p: spec_fn(T) -> bool)
    requires
        0 <= i < s.len(),
    ensures
        s.skip(i).filter(p) == if p(s[i]) {
            seq![s[i]] + s.skip(i + 1).filter(p)
        } else {
            s.skip(i + 1).filter(p)
        },
{
    assert(s.skip(i) =~= seq![s[i]] + s.skip(i + 1));
    lemma_filter_add(seq![s[i]], s.skip(i + 1), p);
    assert(seq![s[i]] =~= Seq::<T>::empty().push(s[i]));
    lemma_filter_push(Seq::<T>::empty(), s[i], p);
    lemma_filter_empty(p);
    if !p(s[i]) {
        assert(Seq::<T>::empty() + s.skip(i + 1).filter(p) =~= s.skip(i + 1).filter(p));
    } else {
        assert(Seq::<T>::empty().push(s[i]) =~= seq![s[i]]);
    }
}

/// The forward split by a pivot element.
pub fn split_forward<T: Elem, H: Hooks>(a: &mut [T], buf: &mut [T], pivot: T, chunk: u64, hooks: &mut H) -> (r: Split)
    requires
        old(a)@.len() > 0,
        chunk_ready(old(a)@, chunk as int),
        chunk < pivot.chunks().len(),
    ensures
        keeps_record(*old(hooks), *final(hooks)),
        H::records() ==> final(hooks).tally() == split_tally::<T, H>(
            H::after(old(hooks).tally(), Note::Key(pivot.key_load(chunk as int) as u64)),
            old(a)@,
            chunk as int,
            pivot.chunks()[chunk as int],
            old(buf)@.len() as int,
            true,
        ),
        !r.fits ==> final(a)@ == half_split(old(a)@, chunk as int, pivot.chunks()[chunk as int], old(buf)@.len() as int),
        final(a)@.len() == old(a)@.len(),
        final(buf)@.len() == old(buf)@.len(),
        r.fits <==> old(a)@.filter(not_below(chunk as int, pivot.chunks()[chunk as int])).len() <= old(buf)@.len(),
        r.fits ==> r.n_ge == old(a)@.filter(not_below(chunk as int, pivot.chunks()[chunk as int])).len(),
        r.fits ==> final(a)@.take(old(a)@.len() - r.n_ge) == old(a)@.filter(below(chunk as int, pivot.chunks()[chunk as int])),
        r.fits ==> final(buf)@.take(r.n_ge as int) == old(a)@.filter(not_below(chunk as int, pivot.chunks()[chunk as int])),
        r.fits ==> r.n_ge <= old(a)@.len() && raw_within(old(a)@, chunk as int, r.mask),
        r.fits ==> r.mask == varying(words_at(old(a)@, chunk as int), old(a)@.len() as int),
        !r.fits ==> stable(by_key(chunk_key(chunk as int)), old(a)@, final(a)@) && permutation(old(a)@, final(a)@),
{
    let pk: u64 = T::radix_key(pivot, chunk).to_u64();
    note_key(pivot, chunk, hooks);
    split_forward_scalar(a, buf, pk, chunk, hooks)
}

// ---- parts ---------------------------------------------------------------------------------------

/// Keys that agree are sorted as they stand.
proof fn lemma_equal_chunk<T: Elem>(a: Seq<T>, c: int, mask: u64)
    requires
        chunk_ready(a, c),
        raw_within(a, c, mask),
        truncated(mask, T::Key::BITS) == 0 || a.len() < 2,
    ensures
        chunk_sorted(c, a, a),
        forall|i: int, j: int| 0 <= i < a.len() && 0 <= j < a.len() ==> (#[trigger] a[i]).chunks()[c] == (#[trigger] a[j]).chunks()[c],
{
    assert forall|i: int, j: int| 0 <= i < a.len() && 0 <= j < a.len() implies (#[trigger] a[i]).chunks()[c] == (#[trigger] a[j]).chunks()[c] by {
        if a.len() >= 2 {
            lemma_raw_truncated(a, c, mask);
            let (x, y) = (a[i].chunks()[c], a[j].chunks()[c]);
            let z = truncated(mask, T::Key::BITS);
            assert(agree_outside(x, y, z));
            assert(x == y) by (bit_vector)
                requires
                    (x ^ y) & !z == 0,
                    z == 0,
            ;
        }
    }
}

/// Only the bits of a mask that fit the key matter.
proof fn lemma_raw_truncated<T: Elem>(a: Seq<T>, c: int, mask: u64)
    requires
        chunk_ready(a, c),
        raw_within(a, c, mask),
    ensures
        raw_within(a, c, truncated(mask, T::Key::BITS)),
{
    let kb = T::Key::BITS;
    assert forall|i: int, j: int| 0 <= i < a.len() && 0 <= j < a.len() implies agree_outside((#[trigger] a[i]).chunks()[c], (#[trigger] a[j]).chunks()[c], truncated(mask, kb)) by {
        a[i].chunks_fit();
        a[j].chunks_fit();
        let (x, y) = (a[i].chunks()[c], a[j].chunks()[c]);
        assert(agree_outside(x, y, mask));
        if kb == 32 {
            let t = truncated(mask, kb);
            assert((x ^ y) & !t == 0) by (bit_vector)
                requires
                    (x ^ y) & !mask == 0,
                    x <= 0xFFFF_FFFF,
                    y <= 0xFFFF_FFFF,
                    t == mask % 0x1_0000_0000,
            ;
        }
    }
}

/// Every pair of keys differs in some bits.
proof fn lemma_raw_any<T: Elem>(a: Seq<T>, c: int)
    ensures
        raw_within(a, c, u64::MAX),
{
    assert forall|i: int, j: int| 0 <= i < a.len() && 0 <= j < a.len() implies agree_outside((#[trigger] a[i]).chunks()[c], (#[trigger] a[j]).chunks()[c], u64::MAX) by {
        let d = a[i].chunks()[c] ^ a[j].chunks()[c];
        assert(d & !u64::MAX == 0) by (bit_vector);
    }
}

/// The plan of a part, and the mask that tells its trivial passes.
proof fn lemma_plan_applies<T: Elem>(a: Seq<T>, c: int, mask: u64, mask_exact: bool, p: RadixPlan)
    requires
        chunk_ready(a, c),
        mask_exact ==> raw_within(a, c, mask),
        p.wf(T::Key::BITS),
        p.exact && !mask_exact ==> p.kind is Full,
        mask_exact && p.kind !is Sub ==> truncated(mask, T::Key::BITS) & !p.assumed == 0,
    ensures
        p.exact ==> raw_within(a, c, p.assumed),
{
    lemma_raw_any(a, c);
    if p.exact && mask_exact {
        lemma_raw_truncated(a, c, mask);
        crate::algorithm::exec::lemma_raw_wider(a, c, truncated(mask, T::Key::BITS), p.assumed);
    }
}

/// A part that is sorted as it stands, moved where it is wanted.
fn part_as_it_is<T: Elem, H: Hooks>(src: &[T], dst: &mut [T], result_in_src: bool, free: bool, hooks: &mut H) -> (in_src: bool)
    requires
        src@.len() == old(dst)@.len(),
    ensures
        keeps_record(*old(hooks), *final(hooks)),
        final(hooks).tally() == moved_tally::<H>(old(hooks).tally(), src@.len() as int, true, result_in_src, free),
        !in_src ==> final(dst)@ == src@,
        !free ==> in_src == result_in_src,
        final(dst)@.len() == old(dst)@.len(),
{
    if !free && !result_in_src {
        copy_all(src, dst);
        note_copies(src, 0, &*dst, 0, src.len(), hooks);
    }
    proof {
        lemma_record::<H>(hooks.tally(), moved_tally::<H>(old(hooks).tally(), src@.len() as int, true, result_in_src, free));
    }
    free || result_in_src
}

/// Tables that are enough for a plan are enough for a dictionary.
proof fn lemma_dict_room<T: Elem>(width: u32)
    ensures
        dict_entries::<T>() <= table_room(width),
        forall|v: u32| v <= width ==> #[trigger] table_room(v) <= table_room(width),
{
    vstd::arithmetic::power2::lemma2_to64();
    lemma_table_room(width, width);
    assert forall|v: u32| v <= width implies #[trigger] table_room(v) <= table_room(width) by {
        lemma_table_room(v, width);
    }
}

/// What is known of a part: the bits in which its keys vary, exact or estimated,
/// whether a dictionary is worth a try, the range of the sampled keys, and the
/// digits and the machine that it is sorted with.
pub struct Hints {
    pub mask: u64,
    pub mask_exact: bool,
    pub dict: bool,
    pub dict_mul: u64,
    pub have_range: bool,
    pub rmin: u64,
    pub rmax: u64,
    pub max_digit: u32,
    pub digit_bits: u32,
    pub machine: Machine,
}

/// The plan of a part of `n` elements.
pub open spec fn hinted_plan<K: RadixKey>(h: Hints, n: int) -> RadixPlan {
    plan_of::<K>(h.mask, h.mask_exact, h.have_range, h.rmin, h.rmax, n, h.max_digit, h.digit_bits, h.machine.bmi2)
}

/// The plan of a part of `n` elements whose keys vary in the bits of `mask`.
pub open spec fn exact_plan<K: RadixKey>(h: Hints, mask: u64, n: int) -> RadixPlan {
    plan_of::<K>(mask, true, false, 0, 0, n, h.max_digit, h.digit_bits, h.machine.bmi2)
}

/// Where a part that is sorted as it stands leads.
pub open spec fn moved_track<H: Hooks>(t: Track<H::Tally>, n: int, to_src: bool, free: bool) -> Track<H::Tally> {
    retold(t, moved_tally::<H>(t.tally, n, true, to_src, free))
}

/// Where the exact plan leads.
pub open spec fn exact_track<T: Elem, H: Hooks>(t: Track<H::Tally>, a: Seq<T>, chunk: u64, h: Hints, to_src: bool, free: bool) -> Track<H::Tally> {
    let mask = varying(words_at(a, chunk as int), a.len() as int);
    let q = exact_plan::<T::Key>(h, mask, a.len() as int);
    if q.bits == 0 {
        moved_track::<H>(t, a.len() as int, to_src, free)
    } else {
        run_track::<T, H>(t, a, chunk, q, mask, to_src, free, h.machine.caches)
    }
}

/// What the exact plan leaves.
pub open spec fn exact_out<T: Elem>(a: Seq<T>, chunk: u64, h: Hints) -> Seq<T> {
    let mask = varying(words_at(a, chunk as int), a.len() as int);
    let q = exact_plan::<T::Key>(h, mask, a.len() as int);
    if q.bits == 0 {
        a
    } else {
        run_out(a, chunk, q, mask, h.machine.caches)
    }
}

/// The bits that a plan was made from, where they are exact.
pub open spec fn sure_mask(h: Hints) -> u64 {
    if h.mask_exact {
        h.mask
    } else {
        u64::MAX
    }
}

/// A dictionary is tried.
pub open spec fn tries_dict<K: RadixKey>(h: Hints, n: int) -> bool {
    let p = hinted_plan::<K>(h, n);
    h.dict && passes_for(p.bits, p.width) >= 2
}

/// Where sorting a part leads.
#[verifier::opaque]
pub open spec fn part_track<T: Elem, H: Hooks>(t: Track<H::Tally>, a: Seq<T>, chunk: u64, h: Hints, to_src: bool, free: bool) -> Track<H::Tally> {
    let n = a.len() as int;
    let c = chunk as int;
    let p = hinted_plan::<T::Key>(h, n);
    if n < 2 || p.bits == 0 {
        moved_track::<H>(t, n, to_src, free)
    } else if tries_dict::<T::Key>(h, n) {
        let tried = dict_track::<T, H>(retold(t, H::after(t.tally, Note::Count(Stat::DictTries, 1))), a, c, h.dict_mul, to_src, free);
        if keys_apart(a, c, h.dict_mul, dict_width::<T>()) {
            retold(tried, H::after(tried.tally, Note::Count(Stat::DictHits, 1)))
        } else {
            exact_track::<T, H>(tried, a, chunk, h, to_src, free)
        }
    } else {
        let ran = run_track::<T, H>(t, a, chunk, p, sure_mask(h), to_src, free, h.machine.caches);
        if plan_holds(p, a, c) {
            ran
        } else {
            exact_track::<T, H>(retold(ran, H::after(ran.tally, Note::Count(Stat::PlanRetries, 1))), a, chunk, h, to_src, free)
        }
    }
}

/// What sorting a part leaves.
#[verifier::opaque]
pub open spec fn part_out<T: Elem>(a: Seq<T>, chunk: u64, h: Hints) -> Seq<T> {
    let n = a.len() as int;
    let c = chunk as int;
    let p = hinted_plan::<T::Key>(h, n);
    if n < 2 || p.bits == 0 {
        a
    } else if tries_dict::<T::Key>(h, n) {
        if keys_apart(a, c, h.dict_mul, dict_width::<T>()) {
            stably(by_key(chunk_key(c)), a)
        } else {
            exact_out(a, chunk, h)
        }
    } else if plan_holds(p, a, c) {
        run_out(a, chunk, p, sure_mask(h), h.machine.caches)
    } else {
        exact_out(a, chunk, h)
    }
}

/// The hints of a call.
pub open spec fn hints_of(mask: u64, mask_exact: bool, info: Pivot, have_range: bool, rmin: u64, rmax: u64, max_digit: u32, digit_bits: u32, machine: Machine) -> Hints {
    Hints { mask, mask_exact, dict: info.dict, dict_mul: info.dict_mul, have_range, rmin, rmax, max_digit, digit_bits, machine }
}

/// Radix sort of one part, `src` with `dst` as the other buffer, the result in
/// `src` or `dst` as requested. `mask` is the part's varying-bit mask, exact or
/// estimated; `[rmin, rmax]` the sampled key range if `have_range`. The
/// dictionary is tried first when the sample called for it and the plan would
/// otherwise need two passes or more; a speculative plan that fails its
/// verification is replaced by the exact plan (the failed pass measured the
/// exact mask), so no pass is ever wasted on a wrong assumption twice.
#[verifier::rlimit(40)]
pub fn radix_part<T: Elem, M: Alloc, H: Hooks>(
    src: &mut [T],
    dst: &mut [T],
    chunk: u64,
    tools: &mut Tools<M, H>,
    mask: u64,
    mask_exact: bool,
    info: &Pivot,
    have_range: bool,
    rmin: u64,
    rmax: u64,
    max_digit: u32,
    result_in_src: bool,
    free: bool,
    digit_bits: u32,
) -> (r: Result<bool, AllocError>)
    requires
        old(tools).base() >= 0,
        old(src)@.len() <= 0xFFFF_FFFF,
        old(dst)@.len() == old(src)@.len(),
        chunk_ready(old(src)@, chunk as int),
        mask_exact ==> raw_within(old(src)@, chunk as int, mask),
        8 <= max_digit < 32,
        digit_bits == 0 || 8 <= digit_bits < 32,
    ensures
        keeps_record(old(tools).hooks, final(tools).hooks),
        asks_more(old(tools).mem.asked(), final(tools).mem.asked()),
        r is Err ==> final(tools).mem.asked().len() > old(tools).mem.asked().len() || too_large::<u32>(table_room(widest(max_digit, digit_bits)) as nat),
        r is Ok ==> track(*final(tools)) == part_track::<T, H>(
            track(*old(tools)),
            old(src)@,
            chunk,
            hints_of(mask, mask_exact, *info, have_range, rmin, rmax, max_digit, digit_bits, old(tools).machine),
            result_in_src,
            free,
        ),
        r matches Ok(in_src) ==> (if in_src {
            final(src)@
        } else {
            final(dst)@
        }) == part_out(old(src)@, chunk, hints_of(mask, mask_exact, *info, have_range, rmin, rmax, max_digit, digit_bits, old(tools).machine)),
        r is Ok ==> final(tools).mem.refusals() == old(tools).mem.refusals(),
        r == Ok::<bool, AllocError>(true) ==> chunk_sorted(chunk as int, old(src)@, final(src)@),
        r == Ok::<bool, AllocError>(false) ==> chunk_sorted(chunk as int, old(src)@, final(dst)@),
        r is Ok && !free ==> r == Ok::<bool, AllocError>(result_in_src),
        r is Err ==> final(src)@ == old(src)@ && final(dst)@ == old(dst)@ && final(tools).mem.refusals() > old(tools).mem.refusals(),
        old(tools).tables@.len() >= table_room(widest(max_digit, digit_bits)) ==> r is Ok && final(tools).mem == old(tools).mem && final(tools).tables@.len() == old(tools).tables@.len(),
        old(src)@.len() < 2 ==> r is Ok && final(tools).mem == old(tools).mem,
        mask_exact && truncated(mask, T::Key::BITS) == 0 ==> r is Ok && final(tools).mem == old(tools).mem,
        final(tools).mem.refusals() >= old(tools).mem.refusals(),
        final(tools).base() == old(tools).base(),
        final(src)@.len() == old(src)@.len(),
        final(dst)@.len() == old(dst)@.len(),
        final(tools).machine == old(tools).machine,
{
    let n: usize = src.len();
    let ghost a = src@;
    let ghost c = chunk as int;
    let ghost h = hints_of(mask, mask_exact, *info, have_range, rmin, rmax, max_digit, digit_bits, tools.machine);
    let ghost begun = track(*tools);
    proof {
        reveal(part_track);
        reveal(part_out);
    }
    if n < 2 {
        proof {
            lemma_raw_any(a, c);
            lemma_equal_chunk(a, c, u64::MAX);
        }
        return Ok(part_as_it_is(src, dst, result_in_src, free, &mut tools.hooks));
    }
    let allow_pext = tools.machine.bmi2;
    proof {
        reveal(larger_asked);
        lemma_dict_room::<T>(widest(max_digit, digit_bits));
    }
    proof {
        a[0].chunks_fit();
    }
    let mut p: RadixPlan = choose_plan::<T::Key>(mask, mask_exact, have_range, rmin, rmax, n, max_digit, digit_bits, allow_pext);
    let mut est: u64 = if mask_exact {
        mask
    } else {
        u64::MAX
    };
    proof {
        lemma_raw_any(a, c);
        lemma_plan_applies(a, c, mask, mask_exact, p);
    }
    if p.bits == 0 {
        proof {
            lemma_equal_chunk(a, c, mask);
        }
        return Ok(part_as_it_is(src, dst, result_in_src, free, &mut tools.hooks));
    }
    if info.dict && p.passes() >= 2 {
        tools.hooks.stat(Stat::DictTries, 1);
        let tried: Ran = match dict_sort(src, dst, chunk, info.dict_mul, result_in_src, tools, free) {
            Ok(t) => t,
            Err(e) => {
                return Err(e);
            },
        };
        if tried.sorted {
            tools.hooks.stat(Stat::DictHits, 1);
            return Ok(tried.in_src);
        }
        est = tried.mask;
        p = choose_plan::<T::Key>(est, true, false, 0, 0, n, max_digit, digit_bits, allow_pext);
        proof {
            lemma_plan_applies(a, c, est, true, p);
        }
        if p.bits == 0 {
            proof {
                lemma_equal_chunk(a, c, est);
            }
            return Ok(part_as_it_is(src, dst, result_in_src, free, &mut tools.hooks));
        }
    }
    let ran: Ran = match radix_run(src, dst, chunk, &p, est, result_in_src, tools, free) {
        Ok(t) => t,
        Err(e) => {
            return Err(e);
        },
    };
    if ran.sorted {
        return Ok(ran.in_src);
    }
    tools.hooks.stat(Stat::PlanRetries, 1);
    let q: RadixPlan = choose_plan::<T::Key>(ran.mask, true, false, 0, 0, n, max_digit, digit_bits, allow_pext);
    proof {
        lemma_plan_applies(a, c, ran.mask, true, q);
    }
    if q.bits == 0 {
        proof {
            lemma_equal_chunk(a, c, ran.mask);
        }
        return Ok(part_as_it_is(src, dst, result_in_src, free, &mut tools.hooks));
    }
    match radix_run(src, dst, chunk, &q, ran.mask, result_in_src, tools, free) {
        Ok(t) => Ok(t.in_src),
        Err(e) => Err(e),
    }
}

/// The two sides of a split, sorted and put together.
pub proof fn lemma_sides_sorted<T: Elem>(orig: Seq<T>, c: int, pk: u64, l: Seq<T>, g: Seq<T>)
    requires
        chunk_sorted(c, orig.filter(below(c, pk)), l),
        chunk_sorted(c, orig.filter(not_below(c, pk)), g),
    ensures
        chunk_sorted(c, orig, l + g),
{
    let le = elem_le::<T>();
    let lf = orig.filter(below::<T>(c, pk));
    let gf = orig.filter(not_below::<T>(c, pk));
    lemma_partition_stable(orig, c, pk);
    lemma_coarse_stable(chunk_key::<T>(c), orig, lf + gf);
    lemma_stable_add(le, lf, gf, l, g);
    lemma_stable_trans(le, orig, lf + gf, l + g);
    lemma_permutation_add(lf, gf, l, g);
    assert forall|i: int, j: int| 0 <= i < l.len() && 0 <= j < g.len() implies by_key(chunk_key::<T>(c))(#[trigger] l[i], #[trigger] g[j]) by {
        let k = lemma_permutation_member(l, lf, i);
        let m = lemma_permutation_member(g, gf, j);
        let x = lemma_filter_member(orig, below(c, pk), k);
        let y = lemma_filter_member(orig, not_below(c, pk), m);
    }
    lemma_sorted_add(by_key(chunk_key::<T>(c)), l, g);
}

/// A side of a split is ready where the whole is.
pub proof fn lemma_side_ready<T: Elem>(orig: Seq<T>, c: int, p: spec_fn(T) -> bool, mask: u64)
    requires
        chunk_ready(orig, c),
    ensures
        chunk_ready(orig.filter(p), c),
        orig.filter(p).len() <= orig.len(),
        raw_within(orig, c, mask) ==> raw_within(orig.filter(p), c, mask),
{
    let f = orig.filter(p);
    orig.lemma_filter_len(p);
    assert forall|i: int| 0 <= i < f.len() implies c < (#[trigger] f[i]).chunks().len() by {
        let k = lemma_filter_member(orig, p, i);
    }
    assert forall|i: int, j: int| 0 <= i < f.len() && 0 <= j < f.len() implies agree_below((#[trigger] f[i]).chunks(), (#[trigger] f[j]).chunks(), c) && (raw_within(orig, c, mask) ==> agree_outside(
        f[i].chunks()[c],
        f[j].chunks()[c],
        mask,
    )) by {
        let k = lemma_filter_member(orig, p, i);
        let l = lemma_filter_member(orig, p, j);
        assert(agree_below(orig[k].chunks(), orig[l].chunks(), c));
    }
}

/// The buffer of a split of `n` elements: half of them and a little more.
pub open spec fn half_room(n: nat) -> nat {
    n / 2 + n / 32 + 8
}

/// The buffer is enough for `n` elements and for a split of them, and the count
/// tables for the digits.
pub open spec fn roomy<T, M, H>(scratch: Scratch<T, M, H>, n: nat, max_digit: u32, digit_bits: u32) -> bool {
    &&& scratch.buf@.len() >= n
    &&& scratch.buf@.len() >= half_room(n)
    &&& scratch.tools.tables@.len() >= table_room(widest(max_digit, digit_bits))
}

/// No memory was asked for: the buffer and the tables are as large as before.
pub open spec fn untouched<T, M, H>(before: Scratch<T, M, H>, now: Scratch<T, M, H>) -> bool {
    &&& now.tools.mem == before.tools.mem
    &&& now.buf@.len() == before.buf@.len()
    &&& now.tools.tables@.len() == before.tools.tables@.len()
}

/// What is known of a side of a split.
pub open spec fn side_hints(mask: u64, info: Pivot, have_range: bool, rmin: u64, rmax: u64, digit_bits: u32, machine: Machine) -> Hints {
    hints_of(mask, true, info, have_range, rmin, rmax, SPLIT_MAX_DIGIT, digit_bits, machine)
}

/// The largest key below the pivot.
pub open spec fn key_before(pk: u64) -> u64 {
    if pk > 0 {
        (pk - 1) as u64
    } else {
        0
    }
}

/// Where sorting the two sides of a split leads: the buffered side first.
#[verifier::opaque]
pub open spec fn sides_trail<T: Elem, H: Hooks>(t: Trail<H::Tally>, s: Seq<T>, chunk: u64, pk: u64, holds_ge: bool, mask: u64, info: Pivot, have_range: bool, lo: u64, hi: u64, digit_bits: u32, machine: Machine) -> Trail<H::Tally> {
    let (l, g) = (s.filter(below(chunk as int, pk)), s.filter(not_below(chunk as int, pk)));
    let hl = side_hints(mask, info, have_range, lo, key_before(pk), digit_bits, machine);
    let hg = side_hints(mask, info, have_range, pk, hi, digit_bits, machine);
    let (first, second) = if holds_ge {
        (g, l)
    } else {
        (l, g)
    };
    let (h1, h2) = if holds_ge {
        (hg, hl)
    } else {
        (hl, hg)
    };
    let once = Trail { track: part_track::<T, H>(t.track, first, chunk, h1, false, false), buf: t.buf };
    let room = buffer_for::<T, H::Tally>(once, second.len());
    Trail { track: part_track::<T, H>(room.track, second, chunk, h2, true, false), buf: room.buf }
}

/// What sorting the two sides of a split leaves.
#[verifier::opaque]
pub open spec fn sides_out<T: Elem>(s: Seq<T>, chunk: u64, pk: u64, mask: u64, info: Pivot, have_range: bool, lo: u64, hi: u64, digit_bits: u32, machine: Machine) -> Seq<T> {
    part_out(s.filter(below(chunk as int, pk)), chunk, side_hints(mask, info, have_range, lo, key_before(pk), digit_bits, machine)) + part_out(
        s.filter(not_below(chunk as int, pk)),
        chunk,
        side_hints(mask, info, have_range, pk, hi, digit_bits, machine),
    )
}

/// Sorts the two sides a split left behind: the buffered side straight out of
/// the buffer, the array side through the buffer. Shared by the median split
/// and the partition sort's fallback.
#[verifier::rlimit(40)]
pub fn sort_split_parts<T: Elem, M: Alloc, H: Hooks>(
    a: &mut [T],
    cap: usize,
    n_ge: usize,
    buf_holds_ge: bool,
    chunk: u64,
    scratch: &mut Scratch<T, M, H>,
    mask: u64,
    info: &Pivot,
    have_range: bool,
    lo: u64,
    pk: u64,
    hi: u64,
    digit_bits: u32,
    Ghost(orig): Ghost<Seq<T>>,
) -> (r: Result<(), AllocError>)
    requires
        old(scratch).base() >= 0,
        0 < orig.len() <= 0xFFFF_FFFF,
        old(a)@.len() == orig.len(),
        chunk_ready(orig, chunk as int),
        raw_within(orig, chunk as int, mask),
        n_ge == orig.filter(not_below(chunk as int, pk)).len(),
        cap <= old(scratch).buf@.len(),
        buf_holds_ge ==> n_ge <= cap && old(a)@.take(orig.len() - n_ge) == orig.filter(below(chunk as int, pk)) && old(scratch).buf@.take(n_ge as int) == orig.filter(not_below(chunk as int, pk)),
        !buf_holds_ge ==> orig.len() - n_ge <= cap && old(a)@.skip(orig.len() - n_ge) == orig.filter(not_below(chunk as int, pk)) && old(scratch).buf@.subrange(
            cap - (orig.len() - n_ge),
            cap as int,
        ) == orig.filter(below(chunk as int, pk)),
        digit_bits == 0 || 8 <= digit_bits < 32,
    ensures
        keeps_record(old(scratch).tools.hooks, final(scratch).tools.hooks),
        asks_more(old(scratch).tools.mem.asked(), final(scratch).tools.mem.asked()),
        r is Ok ==> trail(*final(scratch)) == sides_trail::<T, H>(trail(*old(scratch)), orig, chunk, pk, buf_holds_ge, mask, *info, have_range, lo, hi, digit_bits, old(scratch).tools.machine),
        r is Ok ==> final(a)@ == sides_out(orig, chunk, pk, mask, *info, have_range, lo, hi, digit_bits, old(scratch).tools.machine),
        r is Ok ==> final(scratch).refusals() == old(scratch).refusals(),
        r is Ok ==> chunk_sorted(chunk as int, orig, final(a)@),
        r is Err ==> final(scratch).refusals() > old(scratch).refusals(),
        roomy(*old(scratch), old(a)@.len(), SPLIT_MAX_DIGIT, digit_bits) ==> r is Ok && untouched(*old(scratch), *final(scratch)),
        final(scratch).refusals() >= old(scratch).refusals(),
        final(scratch).base() == old(scratch).base(),
        final(a)@.len() == old(a)@.len(),
        final(scratch).tools.machine == old(scratch).tools.machine,
{
    let n: usize = a.len();
    let ghost c = chunk as int;
    let ghost lf = orig.filter(below::<T>(c, pk));
    let ghost gf = orig.filter(not_below::<T>(c, pk));
    proof {
        reveal(sides_trail);
        reveal(sides_out);
        lemma_partition_stable(orig, c, pk);
        lemma_side_ready(orig, c, below(c, pk), mask);
        lemma_side_ready(orig, c, not_below(c, pk), mask);
    }
    let n_lt: usize = n - n_ge;
    let like: T = a[0];
    let lt_max: u64 = if pk > 0 {
        pk - 1
    } else {
        0
    };
    if buf_holds_ge {
        let ghost gs: Seq<T>;
        {
            let (al, ar) = a.split_at_mut(n_lt);
            let (bl, br) = scratch.buf.split_at_mut(n_ge);
            assert(bl@ =~= gf);
            match radix_part(bl, ar, chunk, &mut scratch.tools, mask, true, info, have_range, pk, hi, SPLIT_MAX_DIGIT, false, false, digit_bits) {
                Ok(_) => {},
                Err(e) => {
                    return Err(e);
                },
            }
            proof {
                gs = ar@;
            }
        }
        assert(a@.take(n_lt as int) =~= lf);
        assert(a@.skip(n_lt as int) =~= gs);
        match scratch.ensure(like, n_lt) {
            Ok(_) => {},
            Err(e) => {
                return Err(e);
            },
        }
        let (al, ar) = a.split_at_mut(n_lt);
        let (tl, tr) = scratch.buf.split_at_mut(n_lt);
        assert(al@ =~= lf);
        match radix_part(al, tl, chunk, &mut scratch.tools, mask, true, info, have_range, lo, lt_max, SPLIT_MAX_DIGIT, true, false, digit_bits) {
            Ok(_) => {},
            Err(e) => {
                return Err(e);
            },
        }
        proof {
            assert(ar@ =~= gs);
            lemma_sides_sorted(orig, c, pk, al@, ar@);
        }
        assert(after_borrow(a)@ =~= al@ + ar@);
    } else {
        let ghost ls: Seq<T>;
        {
            let (al, ar) = a.split_at_mut(n_lt);
            let (bl, br) = scratch.buf.split_at_mut(cap - n_lt);
            let (bm, be) = br.split_at_mut(n_lt);
            assert(bm@ =~= lf);
            match radix_part(bm, al, chunk, &mut scratch.tools, mask, true, info, have_range, lo, lt_max, SPLIT_MAX_DIGIT, false, false, digit_bits) {
                Ok(_) => {},
                Err(e) => {
                    return Err(e);
                },
            }
            proof {
                ls = al@;
            }
        }
        assert(a@.take(n_lt as int) =~= ls);
        assert(a@.skip(n_lt as int) =~= gf);
        match scratch.ensure(like, n_ge) {
            Ok(_) => {},
            Err(e) => {
                return Err(e);
            },
        }
        let (al, ar) = a.split_at_mut(n_lt);
        let (tl, tr) = scratch.buf.split_at_mut(n_ge);
        assert(ar@ =~= gf);
        match radix_part(ar, tl, chunk, &mut scratch.tools, mask, true, info, have_range, pk, hi, SPLIT_MAX_DIGIT, true, false, digit_bits) {
            Ok(_) => {},
            Err(e) => {
                return Err(e);
            },
        }
        proof {
            assert(al@ =~= ls);
            lemma_sides_sorted(orig, c, pk, al@, ar@);
        }
        assert(after_borrow(a)@ =~= al@ + ar@);
    }
    Ok(())
}


// ---- the route -----------------------------------------------------------------------------------

/// A stable partial partition by the chunk may come before a sort by the chunk.
proof fn lemma_resorted<T: Elem>(c: int, a: Seq<T>, b: Seq<T>, s: Seq<T>)
    requires
        stable(by_key(chunk_key(c)), a, b),
        chunk_sorted(c, b, s),
    ensures
        chunk_sorted(c, a, s),
{
    lemma_coarse_stable(chunk_key::<T>(c), a, b);
    lemma_stable_trans(elem_le::<T>(), a, b, s);
}

/// What holds of every element holds of a permutation.
pub proof fn lemma_chunk_ready_permutation<T: Elem>(a: Seq<T>, b: Seq<T>, c: int)
    requires
        permutation(a, b),
        chunk_ready(a, c),
    ensures
        chunk_ready(b, c),
        forall|mask: u64| #[trigger] raw_within(a, c, mask) ==> raw_within(b, c, mask),
{
    assert forall|i: int| 0 <= i < b.len() implies a.contains(#[trigger] b[i]) by {
        let j = lemma_permutation_member(b, a, i);
    }
    assert forall|i: int, j: int| 0 <= i < b.len() && 0 <= j < b.len() implies agree_below((#[trigger] b[i]).chunks(), (#[trigger] b[j]).chunks(), c) by {
        assert(a.contains(b[i]) && a.contains(b[j]));
    }
    assert forall|i: int| 0 <= i < b.len() implies c < (#[trigger] b[i]).chunks().len() by {
        assert(a.contains(b[i]));
    }
    assert forall|mask: u64| #[trigger] raw_within(a, c, mask) implies raw_within(b, c, mask) by {
        assert forall|i: int, j: int| 0 <= i < b.len() && 0 <= j < b.len() implies agree_outside((#[trigger] b[i]).chunks()[c], (#[trigger] b[j]).chunks()[c], mask) by {
            assert(a.contains(b[i]) && a.contains(b[j]));
        }
    }
}

/// A chunk that every element shares and that ends no key can be left behind.
pub proof fn lemma_next_chunk<T: Elem>(a: Seq<T>, c: int)
    requires
        a.len() > 0,
        chunk_ready(a, c),
        forall|i: int| 0 <= i < a.len() ==> (#[trigger] a[i]).chunks()[c] == a[0].chunks()[c],
        a[0].chunks().len() != c + 1,
    ensures
        chunk_ready(a, c + 1),
{
    assert forall|i: int| 0 <= i < a.len() implies c + 1 < (#[trigger] a[i]).chunks().len() by {
        assert(agree_below(a[0].chunks(), a[i].chunks(), c));
        T::chunks_end_together(a[0], a[i], c);
    }
    assert forall|i: int, j: int| 0 <= i < a.len() && 0 <= j < a.len() implies agree_below((#[trigger] a[i]).chunks(), (#[trigger] a[j]).chunks(), c + 1) by {
        assert(agree_below(a[i].chunks(), a[j].chunks(), c));
        assert(c + 1 < a[i].chunks().len());
    }
}

/// The few sampled keys ascend.
proof fn lemma_few_keys<T: Elem>(a: Seq<T>, c: int, info: Pivot, pk: u64, bits: u32)
    requires
        describes(info, sample_of(a, c), pk, bits),
        2 <= info.n_distinct <= 4,
    ensures
        few_keys(info),
{
    let s = sample_of(a, c);
    let ks = choose|ks: Seq<u64>| #[trigger] tells_distinct(info, s, ks, bits);
    assert forall|i: int, j: int| 0 <= i < j < info.n_distinct implies #[trigger] info.few[i] < #[trigger] info.few[j] by {
        assert(info.few[i] == ks[i] && info.few[j] == ks[j]);
    }
}

/// The record of one direction of a split; the forward one looks at the pivot.
pub open spec fn one_split<T: Elem, H: Hooks>(t: H::Tally, s: Seq<T>, c: int, pivot: T, cap: int, forward: bool) -> H::Tally {
    let begun = if forward {
        H::after(t, Note::Key(pivot.key_load(c) as u64))
    } else {
        t
    };
    split_tally::<T, H>(begun, s, c, pivot.chunks()[c], cap, forward)
}

/// The side that goes to the buffer fits it.
pub open spec fn split_fits<T: Elem>(s: Seq<T>, c: int, pk: u64, cap: int, forward: bool) -> bool {
    if forward {
        s.filter(not_below(c, pk)).len() <= cap
    } else {
        s.filter(below(c, pk)).len() <= cap
    }
}

/// The direction that the sample speaks for.
pub open spec fn speaks_forward(info: Pivot) -> bool {
    info.n_ge * 16 <= info.n_sample * 9
}

/// The elements that the split that fits works on.
pub open spec fn split_from<T: Elem>(s: Seq<T>, c: int, pk: u64, cap: int, forward: bool) -> Seq<T> {
    if split_fits(s, c, pk, cap, forward) {
        s
    } else if forward {
        half_split(s, c, pk, cap)
    } else {
        half_split_back(s, c, pk, cap)
    }
}

/// Where a split and the sorting of its sides leads.
#[verifier::opaque]
pub open spec fn split_trail<T: Elem, H: Hooks>(t: Trail<H::Tally>, s: Seq<T>, chunk: u64, pivot: T, info: Pivot, have_range: bool, digit_bits: u32, machine: Machine) -> Trail<H::Tally> {
    let c = chunk as int;
    let pk = pivot.chunks()[c];
    let cap = half_room(s.len()) as int;
    let room = buffer_for::<T, H::Tally>(t, half_room(s.len()));
    let forward = speaks_forward(info);
    let begun = H::after(H::after(room.track.tally, Note::Key(pivot.key_load(c) as u64)), Note::Count(Stat::Splits, 1));
    let once = one_split::<T, H>(begun, s, c, pivot, cap, forward);
    let fits = split_fits(s, c, pk, cap, forward);
    let from = split_from(s, c, pk, cap, forward);
    let done = if fits {
        once
    } else {
        one_split::<T, H>(H::after(once, Note::Count(Stat::SplitRetries, 1)), from, c, pivot, cap, !forward)
    };
    sides_trail::<T, H>(
        retold_trail(room, done),
        from,
        chunk,
        pk,
        forward == fits,
        varying(words_at(from, c), from.len() as int),
        info,
        have_range,
        info.smin,
        info.smax,
        digit_bits,
        machine,
    )
}

/// What a split and the sorting of its sides leaves.
#[verifier::opaque]
pub open spec fn split_out<T: Elem>(s: Seq<T>, chunk: u64, pivot: T, info: Pivot, have_range: bool, digit_bits: u32, machine: Machine) -> Seq<T> {
    let c = chunk as int;
    let pk = pivot.chunks()[c];
    let from = split_from(s, c, pk, half_room(s.len()) as int, speaks_forward(info));
    sides_out(from, chunk, pk, varying(words_at(from, c), from.len() as int), info, have_range, info.smin, info.smax, digit_bits, machine)
}

/// Splits at the pivot through a buffer of about half the array and sorts the
/// two parts. The direction is picked from the sample; if the buffer overflows
/// the other direction fits.
#[verifier::rlimit(40)]
fn split_and_sort<T: Elem, M: Alloc, H: Hooks>(a: &mut [T], scratch: &mut Scratch<T, M, H>, chunk: u64, pivot: T, info: &Pivot, have_range: bool, digit_bits: u32) -> (r: Result<(), AllocError>)
    requires
        old(scratch).base() >= 0,
        0 < old(a)@.len() <= 0xFFFF_FFFF,
        chunk_ready(old(a)@, chunk as int),
        chunk < pivot.chunks().len(),
        info.n_sample <= 512,
        info.n_ge <= 512,
        digit_bits == 0 || 8 <= digit_bits < 32,
    ensures
        keeps_record(old(scratch).tools.hooks, final(scratch).tools.hooks),
        old(scratch).buf@.len() < half_room(old(a)@.len()) ==> asks_more(asks_for::<T>(old(scratch).tools.mem.asked(), half_room(old(a)@.len())), final(scratch).tools.mem.asked()),
        asks_more(old(scratch).tools.mem.asked(), final(scratch).tools.mem.asked()),
        r is Ok ==> trail(*final(scratch)) == split_trail::<T, H>(trail(*old(scratch)), old(a)@, chunk, pivot, *info, have_range, digit_bits, old(scratch).tools.machine),
        r is Ok ==> final(a)@ == split_out(old(a)@, chunk, pivot, *info, have_range, digit_bits, old(scratch).tools.machine),
        r is Ok ==> final(scratch).refusals() == old(scratch).refusals(),
        r is Ok ==> chunk_sorted(chunk as int, old(a)@, final(a)@),
        r is Err ==> final(scratch).refusals() > old(scratch).refusals(),
        roomy(*old(scratch), old(a)@.len(), SPLIT_MAX_DIGIT, digit_bits) ==> r is Ok && untouched(*old(scratch), *final(scratch)),
        final(scratch).refusals() >= old(scratch).refusals(),
        final(scratch).base() == old(scratch).base(),
        final(a)@.len() == old(a)@.len(),
        final(scratch).tools.machine == old(scratch).tools.machine,
{
    let n: usize = a.len();
    let ghost o = a@;
    let ghost c = chunk as int;
    let cap: usize = n / 2 + n / 32 + 8;
    let like: T = a[0];
    match scratch.ensure(like, cap) {
        Ok(_) => {},
        Err(e) => {
            return Err(e);
        },
    }
    let pk: u64 = T::radix_key(pivot, chunk).to_u64();
    note_key(pivot, chunk, &mut scratch.tools.hooks);
    scratch.tools.hooks.stat(Stat::Splits, 1);
    let ghost mut from = o;
    let mut holds_ge = info.n_ge * 16 <= info.n_sample * 9;
    let mut s: Split;
    {
        let (buf, rest) = scratch.buf.split_at_mut(cap);
        s = if holds_ge {
            split_forward(a, buf, pivot, chunk, &mut scratch.tools.hooks)
        } else {
            split_backward_scalar(a, buf, pk, chunk, &mut scratch.tools.hooks)
        };
    }
    proof {
        lemma_partition_stable(o, c, pk);
    }
    if !s.fits {
        scratch.tools.hooks.stat(Stat::SplitRetries, 1);
        holds_ge = !holds_ge;
        proof {
            from = a@;
            lemma_permutation_len(o, from);
            lemma_chunk_ready_permutation(o, from, c);
            lemma_partition_stable(from, c, pk);
            lemma_filter_permutation(o, from, below(c, pk));
            lemma_filter_permutation(o, from, not_below(c, pk));
        }
        let (buf, rest) = scratch.buf.split_at_mut(cap);
        s = if holds_ge {
            split_forward(a, buf, pivot, chunk, &mut scratch.tools.hooks)
        } else {
            split_backward_scalar(a, buf, pk, chunk, &mut scratch.tools.hooks)
        };
    }
    assert(s.fits);
    let n_ge: usize = s.n_ge;
    proof {
        if holds_ge {
            assert(scratch.buf@.take(n_ge as int) =~= from.filter(not_below(c, pk)));
        } else {
            assert(scratch.buf@.subrange(cap - (n - n_ge), cap as int) =~= from.filter(below(c, pk)));
        }
    }
    proof {
        reveal(split_trail);
        reveal(split_out);
        assert(from == split_from(o, c, pk, cap as int, speaks_forward(*info)));
        let room = buffer_for::<T, H::Tally>(trail(*old(scratch)), cap as nat);
        let begun = H::after(H::after(room.track.tally, Note::Key(pivot.key_load(c) as u64)), Note::Count(Stat::Splits, 1));
        let once = one_split::<T, H>(begun, o, c, pivot, cap as int, speaks_forward(*info));
        let fits = split_fits(o, c, pk, cap as int, speaks_forward(*info));
        let done = if fits {
            once
        } else {
            one_split::<T, H>(H::after(once, Note::Count(Stat::SplitRetries, 1)), from, c, pivot, cap as int, !speaks_forward(*info))
        };
        lemma_record::<H>(scratch.tools.hooks.tally(), done);
        assert(trail(*scratch) == retold_trail(room, done));
        assert(s.mask == varying(words_at(from, c), from.len() as int));
    }
    let r = sort_split_parts(a, cap, n_ge, holds_ge, chunk, scratch, s.mask, info, have_range, info.smin, pk, info.smax, digit_bits, Ghost(from));
    proof {
        if r is Ok {
            assert(stable(by_key(chunk_key(c)), o, from));
            lemma_resorted(c, o, from, a@);
        }
    }
    r
}

/// Where a sort by chunks stands: the chunk the elements are sorted by, and
/// whether they are in the array (in the buffer otherwise).
#[derive(Clone, Copy, Debug)]
pub struct Routed {
    /// The chunk.
    pub chunk: u64,
    /// The result is in the array.
    pub in_src: bool,
}

/// The elements have one key.
pub open spec fn all_tied<T: Elem>(a: Seq<T>) -> bool {
    forall|i: int, j: int| 0 <= i < a.len() && 0 <= j < a.len() ==> (#[trigger] a[i]).chunks() == (#[trigger] a[j]).chunks()
}

/// Words that are all the same vary in no bit.
proof fn lemma_same_words(s: Seq<u64>, n: int)
    requires
        0 <= n <= s.len(),
        forall|i: int| 0 <= i < s.len() ==> #[trigger] s[i] == s[0],
    ensures
        varying(s, n) == 0,
    decreases n,
{
    if n > 0 {
        lemma_same_words(s, n - 1);
        let k = s[0];
        assert(s[n - 1] == k);
        assert(0u64 | (k ^ k) == 0) by (bit_vector);
    }
}

/// The chunks of elements with one key vary in no bit.
proof fn lemma_tied_words<T: Elem>(a: Seq<T>, c: int)
    requires
        a.len() > 0,
        all_tied(a),
    ensures
        varying(words_at(a, c), a.len() as int) == 0,
{
    let s = words_at(a, c);
    assert forall|i: int| 0 <= i < s.len() implies #[trigger] s[i] == s[0] by {
        assert(a[i].chunks() == a[0].chunks());
    }
    lemma_same_words(s, a.len() as int);
}

/// Where the radix route leads: the scratch memory and the record, the chunk that
/// the elements are sorted by, and the elements.
pub struct RouteEnd<T, L> {
    pub trail: Trail<L>,
    pub chunk: u64,
    pub out: Seq<T>,
}

/// Chunks that every element shares are left behind: the record, the chunk that is
/// reached and the bits that vary in it.
pub open spec fn shared_end<T: Elem, H: Hooks>(t: H::Tally, a: Seq<T>, chunk: int, mask: u64) -> (H::Tally, int, u64)
    decreases a[0].chunks().len() - chunk,
{
    if mask != 0 {
        (t, chunk, mask)
    } else {
        let seen = H::after(H::after(t, Note::Read), Note::Key(a[0].key_load(chunk) as u64));
        if chunk + 1 >= a[0].chunks().len() {
            (seen, chunk, 0)
        } else {
            shared_end::<T, H>(mask_tally::<T, H>(seen, a, chunk + 1, a.len() as int), a, chunk + 1, varying(words_at(a, chunk + 1), a.len() as int))
        }
    }
}

/// The record once the elements were sampled.
pub open spec fn sampled_trail<T: Elem, H: Hooks>(t: Trail<H::Tally>, a: Seq<T>, chunk: u64) -> Trail<H::Tally> {
    retold_trail(t, sample_tally::<T, H>(t.track.tally, a, chunk as int, sample_size(a.len() as int)))
}

/// What a sample says; nothing where there is none.
pub open spec fn told_mask<T: Elem>(a: Seq<T>, c: int) -> u64 {
    if a.len() >= SPLIT_MIN {
        pivot_of(a, c).1.sample_mask
    } else {
        0
    }
}

/// Whether the sample gives a range of keys.
pub open spec fn told_range<T: Elem>(a: Seq<T>, c: int) -> bool {
    a.len() >= SPLIT_MIN && !pivot_of(a, c).1.all_equal
}

/// The bits that a plan is made from.
pub open spec fn told_est<T: Elem>(a: Seq<T>, c: int, mask: u64, known: bool) -> u64 {
    if known {
        mask
    } else {
        mask | told_mask(a, c)
    }
}

/// The partition sort is tried.
pub open spec fn tries_few<T: Elem>(a: Seq<T>, c: int) -> bool {
    &&& !T::has_chunks()
    &&& vstd::layout::size_of::<T>() == 8
    &&& a.len() >= SPLIT_MIN
    &&& 2 <= pivot_of(a, c).1.n_distinct <= 4
}

/// What is known of the whole range.
pub open spec fn whole_hints<T: Elem>(a: Seq<T>, c: int, mask: u64, known: bool, digit_bits: u32, machine: Machine) -> Hints {
    let told = a.len() >= SPLIT_MIN;
    let info = pivot_of(a, c).1;
    Hints {
        mask: told_est(a, c, mask, known),
        mask_exact: known,
        dict: told && info.dict,
        dict_mul: if told {
            info.dict_mul
        } else {
            0
        },
        have_range: told_range(a, c),
        rmin: if told {
            info.smin
        } else {
            0
        },
        rmax: if told {
            info.smax
        } else {
            0
        },
        max_digit: RADIX_MAX_DIGIT,
        digit_bits,
        machine,
    }
}

/// The range is split: the elements are unordered and the plan needs three passes
/// or more, with a buffer that is smaller than the range.
pub open spec fn is_split<T: Elem>(a: Seq<T>, c: int, mask: u64, known: bool, unordered: bool, buf: nat, digit_bits: u32, machine: Machine) -> bool {
    let info = pivot_of(a, c).1;
    let p = plan_of::<T::Key>(told_est(a, c, mask, known), known, told_range(a, c), info.smin, info.smax, a.len() as int, SPLIT_MAX_DIGIT, digit_bits, machine.bmi2);
    a.len() >= SPLIT_MIN && buf < a.len() && unordered && passes_for(p.bits, p.width) >= SPLIT_MIN_PASSES
}

/// Where the route leads once the chunk that it sorts by is known.
#[verifier::opaque]
pub open spec fn settled_end<T: Elem, H: Hooks>(t: Trail<H::Tally>, a: Seq<T>, chunk: u64, mask: u64, known: bool, unordered: bool, free: bool, digit_bits: u32, machine: Machine) -> RouteEnd<T, H::Tally> {
    let c = chunk as int;
    let (pivot, info) = pivot_of(a, c);
    let few = tries_few(a, c);
    let tried = if few {
        few_trail::<T, H>(t, a, chunk, info, told_range(a, c), digit_bits, machine)
    } else {
        t
    };
    if few && upper_fits(a, c, info) {
        RouteEnd { trail: retold_trail(tried, H::after(tried.track.tally, Note::Count(Stat::PartSorts, 1))), chunk, out: stably(elem_le::<T>(), a) }
    } else {
        let from = if few {
            half_split(a, c, info.few[first_above(info)], half_room(a.len()) as int)
        } else {
            a
        };
        if is_split(a, c, mask, known, unordered, tried.buf, digit_bits, machine) {
            RouteEnd {
                trail: split_trail::<T, H>(tried, from, chunk, pivot, info, told_range(a, c), digit_bits, machine),
                chunk,
                out: split_out(from, chunk, pivot, info, told_range(a, c), digit_bits, machine),
            }
        } else {
            let room = buffer_for::<T, H::Tally>(tried, a.len());
            let h = whole_hints(a, c, mask, known, digit_bits, machine);
            RouteEnd { trail: Trail { track: part_track::<T, H>(room.track, from, chunk, h, true, free), buf: room.buf }, chunk, out: part_out(from, chunk, h) }
        }
    }
}

/// Where the radix route leads.
#[verifier::opaque]
pub open spec fn route_end<T: Elem, H: Hooks>(t: Trail<H::Tally>, a: Seq<T>, chunk: u64, mask: u64, known: bool, unordered: bool, free: bool, digit_bits: u32, machine: Machine) -> RouteEnd<T, H::Tally> {
    let c = chunk as int;
    let n = a.len() as int;
    let told = n >= SPLIT_MIN;
    let begun = if told {
        sampled_trail::<T, H>(t, a, chunk)
    } else {
        t
    };
    let lazy = T::has_chunks() && !known && (!told || pivot_of(a, c).1.all_equal);
    let looked = if lazy {
        retold_trail(begun, mask_tally::<T, H>(begun.track.tally, a, c, n))
    } else {
        begun
    };
    let m = if lazy {
        varying(words_at(a, c), n)
    } else {
        mask
    };
    if T::has_chunks() && (known || lazy) {
        let e = shared_end::<T, H>(looked.track.tally, a, c, m);
        let reached = retold_trail(looked, e.0);
        if e.2 == 0 {
            RouteEnd { trail: reached, chunk: e.1 as u64, out: a }
        } else {
            let again = if told && e.1 != c {
                sampled_trail::<T, H>(reached, a, e.1 as u64)
            } else {
                reached
            };
            settled_end::<T, H>(again, a, e.1 as u64, e.2, true, unordered, free, digit_bits, machine)
        }
    } else {
        settled_end::<T, H>(looked, a, chunk, m, known, unordered, free, digit_bits, machine)
    }
}

/// The radix route once the chunk is known that it sorts by: few sampled keys are
/// partitioned, unordered elements with a plan of three passes or more are split,
/// the others are sorted as one part.
#[verifier::rlimit(60)]
fn settle_route<T: Elem, M: Alloc, H: Hooks>(
    a: &mut [T],
    scratch: &mut Scratch<T, M, H>,
    chunk: u64,
    mask: u64,
    mask_known: bool,
    pivot: T,
    info: &Pivot,
    unordered: bool,
    free: bool,
    digit_bits: u32,
) -> (r: Result<Routed, AllocError>)
    requires
        old(scratch).base() >= 0,
        0 < old(a)@.len() <= 0xFFFF_FFFF,
        chunk_ready(old(a)@, chunk as int),
        mask_known ==> raw_within(old(a)@, chunk as int, mask),
        digit_bits == 0 || 8 <= digit_bits < 32,
        old(a)@.len() >= SPLIT_MIN ==> (pivot, *info) == pivot_of(old(a)@, chunk as int) && picks(old(a)@, chunk as int, (pivot, *info)) && chunk < pivot.chunks().len(),
        old(a)@.len() < SPLIT_MIN ==> !info.dict && info.dict_mul == 0 && info.smin == 0 && info.smax == 0 && info.sample_mask == 0,
    ensures
        keeps_record(old(scratch).tools.hooks, final(scratch).tools.hooks),
        r is Err && old(scratch).buf@.len() == 0 ==> asks_more(asks_for::<T>(old(scratch).tools.mem.asked(), old(a)@.len()), final(scratch).tools.mem.asked()) || asks_more(
            asks_for::<T>(old(scratch).tools.mem.asked(), half_room(old(a)@.len())),
            final(scratch).tools.mem.asked(),
        ),
        asks_more(old(scratch).tools.mem.asked(), final(scratch).tools.mem.asked()),
        r matches Ok(t) ==> {
            let e = settled_end::<T, H>(trail(*old(scratch)), old(a)@, chunk, mask, mask_known, unordered, free, digit_bits, old(scratch).tools.machine);
            &&& trail(*final(scratch)) == e.trail
            &&& t.chunk == e.chunk
            &&& T::has_chunks() && t.in_src ==> final(a)@ == e.out
        },
        r is Ok ==> final(scratch).refusals() == old(scratch).refusals(),
        r matches Ok(t) ==> t.chunk == chunk,
        r matches Ok(t) ==> t.in_src ==> chunk_sorted(chunk as int, old(a)@, final(a)@),
        r matches Ok(t) ==> !t.in_src ==> free && old(a)@.len() <= final(scratch).buf@.len() && chunk_sorted(
            chunk as int,
            old(a)@,
            final(scratch).buf@.take(old(a)@.len() as int),
        ),
        r is Err ==> final(scratch).refusals() > old(scratch).refusals(),
        r is Err && old(a)@.len() < SPLIT_MIN ==> final(a)@ == old(a)@,
        roomy(*old(scratch), old(a)@.len(), RADIX_MAX_DIGIT, digit_bits) ==> r is Ok && untouched(*old(scratch), *final(scratch)),
        final(scratch).refusals() >= old(scratch).refusals(),
        final(scratch).base() == old(scratch).base(),
        final(a)@.len() == old(a)@.len(),
        final(scratch).tools.machine == old(scratch).tools.machine,
{
    let n: usize = a.len();
    let ghost o = a@;
    let ghost machine = scratch.tools.machine;
    let ghost here = trail(*scratch);
    let ghost want = settled_end::<T, H>(here, o, chunk, mask, mask_known, unordered, free, digit_bits, machine);
    let ghost told = n >= SPLIT_MIN;
    let have_pivot = n >= SPLIT_MIN;
    proof {
        reveal(settled_end);
        lemma_table_room(widest(SPLIT_MAX_DIGIT, digit_bits), widest(RADIX_MAX_DIGIT, digit_bits));
    }
    let ghost c = chunk as int;
    let ghost mut from = o;
    let est: u64 = if mask_known {
        mask
    } else {
        mask | info.sample_mask
    };
    let have_range = have_pivot && !info.all_equal;
    if !T::chunked() && core::mem::size_of::<T>() == 8 && have_pivot && info.n_distinct >= 2 && info.n_distinct <= 4 {
        proof {
            lemma_few_keys(o, c, *info, pivot.chunks()[c], dict_width::<T>());
        }
        match partition_sort_few(a, scratch, chunk, info, have_range, digit_bits) {
            Ok(done) => {
                if done {
                    scratch.tools.hooks.stat(Stat::PartSorts, 1);
                    assert(trail(*scratch) == want.trail);
                    return Ok(Routed { chunk, in_src: true });
                }
                proof {
                    from = a@;
                    lemma_permutation_len(o, from);
                    lemma_chunk_ready_permutation(o, from, c);
                }
            },
            Err(e) => {
                return Err(e);
            },
        }
    }
    assert(stable(by_key(chunk_key(c)), o, from));
    proof {
        o[0].chunks_fit();
        if have_pivot {
            let s = sample_of(o, c);
            s.lemma_filter_len(words_from(pivot.chunks()[c]));
        }
    }
    let allow_pext = scratch.tools.machine.bmi2;
    proof {
        assert(tries_few(o, c) ==> from == half_split(o, c, info.few[first_above(*info)], half_room(n as nat) as int));
        assert(!tries_few(o, c) ==> from == o);
        assert(told ==> told_est(o, c, mask, mask_known) == est && told_range(o, c) == have_range);
    }
    if have_pivot && scratch.capacity() < n && unordered {
        let plan: RadixPlan = choose_plan::<T::Key>(est, mask_known, have_range, info.smin, info.smax, n, SPLIT_MAX_DIGIT, digit_bits, allow_pext);
        if plan.passes() >= SPLIT_MIN_PASSES {
            return match split_and_sort(a, scratch, chunk, pivot, info, have_range, digit_bits) {
                Ok(_) => {
                    proof {
                        lemma_resorted(c, o, from, a@);
                    }
                    Ok(Routed { chunk, in_src: true })
                },
                Err(e) => Err(e),
            };
        }
    }
    let like: T = a[0];
    match scratch.ensure(like, n) {
        Ok(_) => {},
        Err(e) => {
            return Err(e);
        },
    }
    proof {
        lemma_or_turn(mask, 0, 0);
        assert(hints_of(est, mask_known, *info, have_range, info.smin, info.smax, RADIX_MAX_DIGIT, digit_bits, machine) == whole_hints(o, c, mask, mask_known, digit_bits, machine));
    }
    let (tmp, rest) = scratch.buf.split_at_mut(n);
    match radix_part(a, tmp, chunk, &mut scratch.tools, est, mask_known, info, have_range, info.smin, info.smax, RADIX_MAX_DIGIT, true, free, digit_bits) {
        Ok(in_src) => {
            proof {
                if in_src {
                    lemma_resorted(c, o, from, a@);
                } else {
                    lemma_resorted(c, o, from, tmp@);
                    assert(after_borrow(scratch).buf@.take(n as int) =~= tmp@);
                }
            }
            Ok(Routed { chunk, in_src })
        },
        Err(e) => Err(e),
    }
}

/// The radix route. `mask_known` says that `mask` holds every varying bit; it is
/// an estimate otherwise. A chunk that every element shares is left behind, so
/// the chunk that the result is sorted by is returned. With `free` the result
/// may stay in the scratch buffer.
#[verifier::rlimit(60)]
pub fn radix_route<T: Elem, M: Alloc, H: Hooks>(
    a: &mut [T],
    scratch: &mut Scratch<T, M, H>,
    chunk: u64,
    mask: u64,
    mask_known: bool,
    unordered: bool,
    free: bool,
    digit_bits: u32,
) -> (r: Result<Routed, AllocError>)
    requires
        old(scratch).base() >= 0,
        0 < old(a)@.len() <= 0xFFFF_FFFF,
        chunk_ready(old(a)@, chunk as int),
        mask_known ==> raw_within(old(a)@, chunk as int, mask),
        digit_bits == 0 || 8 <= digit_bits < 32,
    ensures
        keeps_record(old(scratch).tools.hooks, final(scratch).tools.hooks),
        r is Err && old(scratch).buf@.len() == 0 ==> asks_more(asks_for::<T>(old(scratch).tools.mem.asked(), old(a)@.len()), final(scratch).tools.mem.asked()) || asks_more(
            asks_for::<T>(old(scratch).tools.mem.asked(), half_room(old(a)@.len())),
            final(scratch).tools.mem.asked(),
        ),
        asks_more(old(scratch).tools.mem.asked(), final(scratch).tools.mem.asked()),
        r matches Ok(t) ==> {
            let e = route_end::<T, H>(trail(*old(scratch)), old(a)@, chunk, mask, mask_known, unordered, free, digit_bits, old(scratch).tools.machine);
            &&& trail(*final(scratch)) == e.trail
            &&& t.chunk == e.chunk
            &&& T::has_chunks() && t.in_src ==> final(a)@ == e.out
        },
        r is Ok ==> final(scratch).refusals() == old(scratch).refusals(),
        r matches Ok(t) ==> chunk <= t.chunk && chunk_ready(old(a)@, t.chunk as int),
        r matches Ok(t) ==> t.in_src ==> chunk_sorted(t.chunk as int, old(a)@, final(a)@),
        r matches Ok(t) ==> !t.in_src ==> free && old(a)@.len() <= final(scratch).buf@.len() && chunk_sorted(
            t.chunk as int,
            old(a)@,
            final(scratch).buf@.take(old(a)@.len() as int),
        ),
        r is Err ==> final(scratch).refusals() > old(scratch).refusals(),
        r is Err && old(a)@.len() < SPLIT_MIN ==> final(a)@ == old(a)@,
        roomy(*old(scratch), old(a)@.len(), RADIX_MAX_DIGIT, digit_bits) ==> r is Ok && untouched(*old(scratch), *final(scratch)),
        T::has_chunks() && (mask_known ==> mask == 0) && all_tied(old(a)@) ==> r is Ok && final(scratch).tools.mem == old(scratch).tools.mem,
        final(scratch).refusals() >= old(scratch).refusals(),
        final(scratch).base() == old(scratch).base(),
        final(a)@.len() == old(a)@.len(),
        final(scratch).tools.machine == old(scratch).tools.machine,
{
    let n: usize = a.len();
    let ghost o = a@;
    let ghost begun = trail(*scratch);
    proof {
        reveal(route_end);
    }
    let mut chunk: u64 = chunk;
    let ghost known = mask_known ==> mask == 0;
    let mut mask: u64 = mask;
    let mut mask_known = mask_known;
    let mut info = Pivot::default();
    let mut pivot: T = a[0];
    let have_pivot = n >= SPLIT_MIN;
    if have_pivot {
        let (p, i) = pick_pivot(a, chunk, &mut scratch.tools.hooks);
        pivot = p;
        info = i;
        proof {
            if all_tied(o) {
                let sample = sample_of(o, chunk as int);
                assert forall|k: int| 0 <= k < sample.len() implies #[trigger] sample[k] == sample[0] by {
                    lemma_sample_place(n as int, k);
                    lemma_sample_place(n as int, 0);
                    assert(o[sample_place(n as int, k)].chunks() == o[sample_place(n as int, 0)].chunks());
                }
                lemma_same_words(sample, sample.len() as int);
            }
            lemma_record::<H>(scratch.tools.hooks.tally(), sample_tally::<T, H>(begun.track.tally, o, chunk as int, sample_size(n as int)));
        }
    }
    if T::chunked() {
        if !mask_known && (!have_pivot || info.all_equal) {
            let ghost before = scratch.tools.hooks.tally();
            mask = compute_mask(a, chunk, &mut scratch.tools.hooks);
            mask_known = true;
            proof {
                lemma_record::<H>(scratch.tools.hooks.tally(), mask_tally::<T, H>(before, o, chunk as int, n as int));
                if all_tied(o) {
                    lemma_tied_words(o, chunk as int);
                }
            }
        }
        if mask_known {
            let chunk0: u64 = chunk;
            let e0: T = a[0];
            let mut ended = false;
            proof {
                e0.chunks_fit();
            }
            let ghost reach = shared_end::<T, H>(scratch.tools.hooks.tally(), o, chunk as int, mask);
            while mask == 0 && !ended
                invariant
                    keeps_record(old(scratch).tools.hooks, scratch.tools.hooks),
                    o == a@,
                    o.len() > 0,
                    e0 == o[0],
                    chunk0 <= chunk,
                    chunk < e0.chunks().len() < 0x10_0000_0000,
                    chunk_ready(o, chunk as int),
                    raw_within(o, chunk as int, mask),
                    ended ==> mask == 0,
                    n == o.len(),
                    !ended ==> reach == shared_end::<T, H>(scratch.tools.hooks.tally(), o, chunk as int, mask),
                    ended ==> reach == (scratch.tools.hooks.tally(), chunk as int, 0u64),
                    books(scratch.tools.mem) == begun.track.books,
                    begun == trail(*old(scratch)),
                    all_tied(o) && known ==> mask == 0,
                    untouched(*old(scratch), *scratch),
                    scratch.refusals() >= old(scratch).refusals(),
                    scratch.base() == old(scratch).base(),
                    scratch.base() >= 0,
                    scratch.tools.machine == old(scratch).tools.machine,
                decreases
                    e0.chunks().len() - chunk + (if ended {
                        0int
                    } else {
                        1int
                    }),
            {
                let ghost before = scratch.tools.hooks.tally();
                scratch.tools.hooks.on_read(&*a, 0);
                note_key(e0, chunk, &mut scratch.tools.hooks);
                let ghost seen = H::after(H::after(before, Note::Read), Note::Key(e0.key_load(chunk as int) as u64));
                if T::chunk_ends(e0, chunk) {
                    ended = true;
                } else {
                    proof {
                        lemma_equal_chunk(o, chunk as int, 0);
                        lemma_next_chunk(o, chunk as int);
                    }
                    chunk += 1;
                    mask = compute_mask(a, chunk, &mut scratch.tools.hooks);
                    proof {
                        lemma_record::<H>(scratch.tools.hooks.tally(), mask_tally::<T, H>(seen, o, chunk as int, n as int));
                        if all_tied(o) {
                            lemma_tied_words(o, chunk as int);
                        }
                    }
                }
            }
            if mask == 0 {
                proof {
                    lemma_equal_chunk(o, chunk as int, 0);
                }
                return Ok(Routed { chunk, in_src: true });
            }
            if have_pivot && chunk != chunk0 {
                let ghost before = scratch.tools.hooks.tally();
                let (p, i) = pick_pivot(a, chunk, &mut scratch.tools.hooks);
                pivot = p;
                info = i;
                proof {
                    lemma_record::<H>(scratch.tools.hooks.tally(), sample_tally::<T, H>(before, o, chunk as int, sample_size(n as int)));
                }
            }
        }
    }
    settle_route(a, scratch, chunk, mask, mask_known, pivot, &info, unordered, free, digit_bits)
}

} // verus!
