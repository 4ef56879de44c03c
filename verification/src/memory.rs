//! The memory of the sorts, and the cache of freed blocks.
//!
//! A sort allocates a few large blocks (the records, the scratch buffer, the
//! permutation) and frees them at the end. Fresh pages from the system are the
//! most expensive part of sorting a hundred thousand elements: every page is
//! faulted in on first touch, which costs as much as the sorting itself. So the
//! largest freed blocks are kept, up to a limit (32 MiB by default; 0 disables
//! the cache), and the next sort takes them back warm. A block is known by its
//! full capacity, so a block that served a smaller request is still known in
//! full when it comes back.
//!
//! The cache is a value: the program that wants freed blocks kept from one sort to
//! the next owns one and hands it on. The library has no state between two calls,
//! so the sorts themselves ask the machine each time.
//!
//! Allocation never aborts: a failed request is reported and the sort completes
//! by comparison.
use crate::order::{lemma_permutation_add, lemma_permutation_swap, permutation};
use crate::view::{larger, Alloc};
use vstd::prelude::*;

verus! {

/// Smaller blocks go to the heap directly.
pub const MIN_BLOCK: usize = 0x1_0000;

/// Cached free blocks.
pub const SLOTS: usize = 8;

/// The limit of a new cache.
pub const DEFAULT_LIMIT: usize = 0x200_0000;

/// The library's memory: whatever the machine has.
pub struct DefaultAlloc {
    refused: Ghost<nat>,
    out: Ghost<nat>,
    peak: Ghost<nat>,
    log: Ghost<Seq<nat>>,
}

impl DefaultAlloc {
    /// The machine's memory.
    pub fn new() -> (r: Self)
        ensures
            r.refusals() == 0,
            r.held() == 0,
    {
        DefaultAlloc { refused: Ghost(0), out: Ghost(0), peak: Ghost(0), log: Ghost(Seq::empty()) }
    }
}

impl Alloc for DefaultAlloc {
    closed spec fn refusals(&self) -> nat {
        self.refused@
    }

    closed spec fn held(&self) -> nat {
        self.out@
    }

    closed spec fn asked(&self) -> Seq<nat> {
        self.log@
    }

    closed spec fn most_held(&self) -> nat {
        self.peak@
    }

    fn allocate(&mut self, bytes: usize) -> (r: bool) {
        self.log = Ghost(self.log@.push(bytes as nat));
        self.out = Ghost(self.out@ + bytes as nat);
        self.peak = Ghost(larger(self.peak@, self.out@));
        true
    }

    fn refuse(&mut self, bytes: usize) {
        self.refused = Ghost(self.refused@ + 1);
    }

    fn oversize(&mut self, n: usize, size: usize, align: usize) {
        self.refused = Ghost(self.refused@ + 1);
    }

    fn deallocate(&mut self, bytes: usize) {
        self.out = Ghost((self.out@ - bytes) as nat);
    }
}

/// Memory that grants requests of at most `most` bytes, and so many of them.
pub struct LimitedAlloc {
    /// The largest request that is granted.
    pub most: usize,
    /// How many requests are granted.
    pub grants: usize,
    /// How often memory was refused.
    pub refused: Ghost<nat>,
    /// The bytes that are out.
    pub out: Ghost<nat>,
    /// The most bytes that were out at once.
    pub peak: Ghost<nat>,
    /// What was asked for.
    pub log: Ghost<Seq<nat>>,
}

impl LimitedAlloc {
    /// Memory with these limits.
    pub fn new(most: usize, grants: usize) -> (r: Self)
        ensures
            r.most == most,
            r.grants == grants,
            r.refusals() == 0,
            r.held() == 0,
    {
        LimitedAlloc { most, grants, refused: Ghost(0), out: Ghost(0), peak: Ghost(0), log: Ghost(Seq::empty()) }
    }
}

impl Alloc for LimitedAlloc {
    open spec fn refusals(&self) -> nat {
        self.refused@
    }

    open spec fn held(&self) -> nat {
        self.out@
    }

    open spec fn asked(&self) -> Seq<nat> {
        self.log@
    }

    open spec fn most_held(&self) -> nat {
        self.peak@
    }

    fn allocate(&mut self, bytes: usize) -> (r: bool)
        ensures
            r == (bytes <= old(self).most && old(self).grants > 0),
            final(self).most == old(self).most,
            final(self).grants == if r {
                old(self).grants - 1
            } else {
                old(self).grants as int
            },
    {
        self.log = Ghost(self.log@.push(bytes as nat));
        if bytes <= self.most && self.grants > 0 {
            self.grants = self.grants - 1;
            self.out = Ghost(self.out@ + bytes as nat);
            self.peak = Ghost(larger(self.peak@, self.out@));
            true
        } else {
            self.refused = Ghost(self.refused@ + 1);
            false
        }
    }

    fn refuse(&mut self, bytes: usize) {
        self.refused = Ghost(self.refused@ + 1);
    }

    fn oversize(&mut self, n: usize, size: usize, align: usize) {
        self.refused = Ghost(self.refused@ + 1);
    }

    fn deallocate(&mut self, bytes: usize) {
        self.out = Ghost((self.out@ - bytes) as nat);
    }
}

/// Memory that refuses one request, and keeps count of the bytes that were not
/// given back.
pub struct FailingAlloc {
    /// The number of the request that is refused.
    pub fail_at: usize,
    /// How many requests there were.
    pub calls: usize,
    /// How many bytes are out.
    pub live: usize,
    /// The most bytes that were out at once.
    pub peak: Ghost<nat>,
    /// How often memory was refused.
    pub refused: Ghost<nat>,
    /// What was asked for.
    pub log: Ghost<Seq<nat>>,
}

impl FailingAlloc {
    /// Memory that refuses request number `fail_at`.
    pub fn new(fail_at: usize) -> (r: Self)
        ensures
            r.fail_at == fail_at,
            r.calls == 0,
            r.live == 0,
            r.refusals() == 0,
            r.held() == 0,
    {
        FailingAlloc { fail_at, calls: 0, live: 0, peak: Ghost(0), refused: Ghost(0), log: Ghost(Seq::empty()) }
    }
}

impl Alloc for FailingAlloc {
    open spec fn refusals(&self) -> nat {
        self.refused@
    }

    open spec fn held(&self) -> nat {
        self.live as nat
    }

    open spec fn asked(&self) -> Seq<nat> {
        self.log@
    }

    open spec fn most_held(&self) -> nat {
        self.peak@
    }

    fn allocate(&mut self, bytes: usize) -> (r: bool)
        ensures
            r == (old(self).calls != old(self).fail_at && old(self).live + bytes <= usize::MAX),
            final(self).fail_at == old(self).fail_at,
            final(self).calls == old(self).calls.saturating_add(1),
    {
        let fails: bool = self.calls == self.fail_at || bytes > usize::MAX - self.live;
        self.calls = self.calls.saturating_add(1);
        self.log = Ghost(self.log@.push(bytes as nat));
        if fails {
            self.refused = Ghost(self.refused@ + 1);
            false
        } else {
            self.live = self.live + bytes;
            self.peak = Ghost(larger(self.peak@, self.live as nat));
            true
        }
    }

    fn refuse(&mut self, bytes: usize) {
        self.refused = Ghost(self.refused@ + 1);
    }

    fn oversize(&mut self, n: usize, size: usize, align: usize) {
        self.refused = Ghost(self.refused@ + 1);
    }

    fn deallocate(&mut self, bytes: usize)
        ensures
            *final(self) == (FailingAlloc { live: (old(self).live - bytes) as usize, ..*old(self) }),
    {
        self.live = self.live - bytes;
    }
}

// ---- the cache -----------------------------------------------------------------------------------

/// A free block.
pub struct Block<B> {
    /// The memory.
    pub data: B,
    /// Its capacity in bytes.
    pub cap: usize,
}

/// The freed blocks that are kept.
pub struct Cache<B> {
    /// The blocks.
    pub blocks: Vec<Block<B>>,
    /// Their capacity in all.
    pub cached: usize,
    /// How much is kept at most.
    pub limit: usize,
}

/// The capacity of the blocks in all.
pub open spec fn cap_sum<B>(s: Seq<Block<B>>) -> int
    decreases s.len(),
{
    if s.len() == 0 {
        0
    } else {
        cap_sum(s.drop_last()) + s.last().cap
    }
}

/// `i` is the first of the smallest blocks.
pub open spec fn is_smallest<B>(s: Seq<Block<B>>, i: int) -> bool {
    &&& 0 <= i < s.len()
    &&& forall|k: int| 0 <= k < s.len() ==> s[i].cap <= (#[trigger] s[k]).cap
    &&& forall|k: int| 0 <= k < i ==> s[i].cap < (#[trigger] s[k]).cap
}

/// The first of the smallest blocks.
pub open spec fn smallest_at<B>(s: Seq<Block<B>>) -> int {
    choose|i: int| is_smallest(s, i)
}

/// The blocks without block `i`: the last takes its slot.
pub open spec fn without<B>(s: Seq<Block<B>>, i: int) -> Seq<Block<B>> {
    s.update(i, s.last()).drop_last()
}

/// The blocks that stay when there must be room for `cap` more bytes: the
/// smallest go while the total would exceed the limit.
pub open spec fn with_room<B>(s: Seq<Block<B>>, cap: int, limit: int) -> Seq<Block<B>>
    decreases s.len(),
{
    if s.len() > 0 && cap_sum(s) + cap > limit {
        proof {
            lemma_smallest_at(s);
        }
        with_room(without(s, smallest_at(s)), cap, limit)
    } else {
        s
    }
}

/// The blocks that are kept when `b` comes back: not `b` if it is over the limit
/// alone; a full cache keeps the larger blocks.
pub open spec fn after_free<B>(s: Seq<Block<B>>, b: Block<B>, limit: int) -> Seq<Block<B>> {
    if b.cap > limit {
        s
    } else {
        let t = with_room(s, b.cap as int, limit);
        if t.len() < SLOTS {
            t.push(b)
        } else if t[smallest_at(t)].cap >= b.cap {
            t
        } else {
            without(t, smallest_at(t)).push(b)
        }
    }
}

proof fn lemma_smallest_unique<B>(s: Seq<Block<B>>, i: int)
    requires
        is_smallest(s, i),
    ensures
        smallest_at(s) == i,
{
    let j = smallest_at(s);
    assert(is_smallest(s, j));
    assert(s[i].cap <= s[j].cap && s[j].cap <= s[i].cap);
    if j < i {
        assert(s[i].cap < s[j].cap);
    }
    if i < j {
        assert(s[j].cap < s[i].cap);
    }
}

/// A block is the first of the smallest.
pub proof fn lemma_smallest_at<B>(s: Seq<Block<B>>)
    requires
        s.len() > 0,
    ensures
        is_smallest(s, smallest_at(s)),
{
    let i = lemma_smallest_exists(s);
}

proof fn lemma_cap_update<B>(s: Seq<Block<B>>, i: int, b: Block<B>)
    requires
        0 <= i < s.len(),
    ensures
        cap_sum(s.update(i, b)) == cap_sum(s) - s[i].cap + b.cap,
        cap_sum(s) >= s[i].cap,
    decreases s.len(),
{
    let t = s.update(i, b);
    lemma_cap_nonneg(s.drop_last());
    if i == s.len() - 1 {
        assert(t.drop_last() =~= s.drop_last());
    } else {
        lemma_cap_update(s.drop_last(), i, b);
        assert(t.drop_last() =~= s.drop_last().update(i, b));
    }
}

proof fn lemma_cap_nonneg<B>(s: Seq<Block<B>>)
    ensures
        cap_sum(s) >= 0,
    decreases s.len(),
{
    if s.len() > 0 {
        lemma_cap_nonneg(s.drop_last());
    }
}

proof fn lemma_without<B>(s: Seq<Block<B>>, i: int)
    requires
        0 <= i < s.len(),
    ensures
        cap_sum(without(s, i)) == cap_sum(s) - s[i].cap,
        without(s, i).len() == s.len() - 1,
{
    lemma_cap_update(s, i, s.last());
    let t = s.update(i, s.last());
    assert(t.last() == s.last());
}

/// What is kept stays within the limit and the slots.
pub proof fn cache_within_limit<B>(s: Seq<Block<B>>, b: Block<B>, limit: int)
    requires
        s.len() <= SLOTS,
        cap_sum(s) <= limit,
    ensures
        after_free(s, b, limit).len() <= SLOTS,
        cap_sum(after_free(s, b, limit)) <= limit,
{
    if b.cap <= limit {
        lemma_with_room(s, b.cap as int, limit);
        let t = with_room(s, b.cap as int, limit);
        lemma_cap_push(t, b);
        if t.len() == SLOTS {
            let i = lemma_smallest_exists(t);
            lemma_smallest_unique(t, i);
            lemma_without(t, i);
            lemma_cap_push(without(t, i), b);
        }
    }
}

proof fn lemma_cap_push<B>(s: Seq<Block<B>>, b: Block<B>)
    ensures
        cap_sum(s.push(b)) == cap_sum(s) + b.cap,
{
    assert(s.push(b).drop_last() =~= s);
}

proof fn lemma_smallest_exists<B>(s: Seq<Block<B>>) -> (i: int)
    requires
        s.len() > 0,
    ensures
        is_smallest(s, i),
    decreases s.len(),
{
    if s.len() == 1 {
        0
    } else {
        let t = s.drop_last();
        let j = lemma_smallest_exists(t);
        assert forall|k: int| 0 <= k < t.len() implies t[j].cap <= (#[trigger] s[k]).cap by {
            assert(t[j].cap <= t[k].cap);
        }
        if s.last().cap < t[j].cap {
            assert forall|k: int| 0 <= k < s.len() - 1 implies s.last().cap < (#[trigger] s[k]).cap by {}
            s.len() - 1
        } else {
            assert forall|k: int| 0 <= k < j implies s[j].cap < (#[trigger] s[k]).cap by {
                assert(t[j].cap < t[k].cap);
            }
            j
        }
    }
}

proof fn lemma_with_room<B>(s: Seq<Block<B>>, cap: int, limit: int)
    requires
        0 <= cap <= limit,
    ensures
        with_room(s, cap, limit).len() <= s.len(),
        cap_sum(with_room(s, cap, limit)) + cap <= limit,
    decreases s.len(),
{
    if s.len() > 0 && cap_sum(s) + cap > limit {
        let i = lemma_smallest_exists(s);
        lemma_smallest_unique(s, i);
        lemma_without(s, i);
        lemma_with_room(without(s, i), cap, limit);
    }
}

/// The capacity of blocks is that of all but the last and that of the last.
pub proof fn capacities_add_up<B>(s: Seq<Block<B>>, b: Block<B>)
    ensures
        cap_sum(Seq::<Block<B>>::empty()) == 0,
        cap_sum(s.push(b)) == cap_sum(s) + b.cap,
{
    lemma_cap_push(s, b);
}

/// Blocks of less than 64 KiB are not kept, and no more than eight are.
pub proof fn small_blocks_are_not_kept(bytes: usize)
    ensures
        bytes < MIN_BLOCK <==> bytes < 64 * 1024,
        bytes <= SLOTS <==> bytes <= 8,
{
}

/// A block that leaves is the only one that does: the last block moves into its
/// slot, and the others stay where they are.
pub proof fn one_block_leaves<B>(s: Seq<Block<B>>, i: int)
    requires
        0 <= i < s.len(),
    ensures
        s.to_multiset() == without(s, i).to_multiset().insert(s[i]),
        without(s, i).len() == s.len() - 1,
        forall|k: int| 0 <= k < s.len() - 1 && k != i ==> #[trigger] without(s, i)[k] == s[k],
        i < s.len() - 1 ==> without(s, i)[i] == s.last(),
{
    lemma_moved(s, i, Seq::empty());
    assert(s + Seq::<Block<B>>::empty() =~= s);
    let r = without(s, i);
    assert(r + Seq::<Block<B>>::empty().push(s[i]) =~= r.push(s[i]));
    r.to_multiset_ensures();
}

/// Room is made by the smallest blocks, and by no more of them than it takes: the
/// last that goes would have left too little.
pub proof fn room_is_made_by_the_smallest<B>(s: Seq<Block<B>>, cap: int, limit: int) -> (v: Seq<Block<B>>)
    requires
        0 <= cap <= limit,
    ensures
        s.to_multiset() == (with_room(s, cap, limit) + v).to_multiset(),
        forall|x: Block<B>, y: Block<B>| #[trigger] v.contains(x) && #[trigger] with_room(s, cap, limit).contains(y) ==> x.cap <= y.cap,
        cap_sum(with_room(s, cap, limit)) + cap <= limit,
        v.len() == 0 ==> with_room(s, cap, limit) == s,
        v.len() > 0 ==> cap_sum(with_room(s, cap, limit)) + v.last().cap + cap > limit,
    decreases s.len(),
{
    lemma_with_room(s, cap, limit);
    if s.len() > 0 && cap_sum(s) + cap > limit {
        let i = smallest_at(s);
        lemma_smallest_at(s);
        let r = without(s, i);
        lemma_without(s, i);
        let w = room_is_made_by_the_smallest(r, cap, limit);
        let t = with_room(r, cap, limit);
        let x = seq![s[i]];
        let v = x + w;
        lemma_moved(s, i, Seq::empty());
        assert(s + Seq::<Block<B>>::empty() =~= s);
        assert(r + Seq::<Block<B>>::empty().push(s[i]) =~= r + x);
        lemma_permutation_add(r, x, t + w, x);
        lemma_permutation_swap(w, x);
        lemma_permutation_add(t, w + x, t, x + w);
        assert((t + w) + x =~= t + (w + x));
        assert forall|a: Block<B>, y: Block<B>| #[trigger] v.contains(a) && #[trigger] with_room(s, cap, limit).contains(y) implies a.cap <= y.cap by {
            let j = choose|j: int| 0 <= j < v.len() && v[j] == a;
            if j == 0 {
                assert(t.contains(y));
                lemma_room_members(r, cap, limit, y);
                let k = choose|k: int| 0 <= k < r.len() && r[k] == y;
                if k == i {
                    assert(y == s[s.len() - 1]);
                } else {
                    assert(y == s[k]);
                }
            } else {
                assert(w[j - 1] == a);
                assert(w.contains(a));
            }
        }
        if w.len() > 0 {
            assert(v.last() == w.last());
        } else {
            assert(v.last() == s[i]);
        }
        v
    } else {
        assert(s + Seq::<Block<B>>::empty() =~= s);
        Seq::empty()
    }
}

proof fn lemma_room_members<B>(s: Seq<Block<B>>, cap: int, limit: int, y: Block<B>)
    requires
        with_room(s, cap, limit).contains(y),
    ensures
        s.contains(y),
    decreases s.len(),
{
    if s.len() > 0 && cap_sum(s) + cap > limit {
        let i = smallest_at(s);
        lemma_smallest_at(s);
        lemma_room_members(without(s, i), cap, limit, y);
        let k = choose|k: int| 0 <= k < without(s, i).len() && without(s, i)[k] == y;
        if k == i {
            assert(y == s[s.len() - 1]);
        } else {
            assert(y == s[k]);
        }
    }
}

/// A block that comes back is kept behind the others where there is room for it and
/// a slot; one that is too large for the limit changes nothing; where the slots are
/// taken, it takes the place of the smallest block where that is smaller than it.
pub proof fn blocks_come_back<B>(s: Seq<Block<B>>, b: Block<B>, limit: int)
    requires
        s.len() <= 8,
    ensures
        b.cap > limit ==> after_free(s, b, limit) == s,
        b.cap <= limit && cap_sum(s) + b.cap <= limit && s.len() < 8 ==> after_free(s, b, limit) == s.push(b),
        b.cap <= limit && cap_sum(s) + b.cap <= limit && s.len() == 8 && (forall|k: int| 0 <= k < s.len() ==> (#[trigger] s[k]).cap >= b.cap) ==> after_free(
            s,
            b,
            limit,
        ) == s,
        b.cap <= limit && cap_sum(s) + b.cap <= limit && s.len() == 8 && (exists|k: int| 0 <= k < s.len() && (#[trigger] s[k]).cap < b.cap) ==> exists|k: int|
            {
                &&& 0 <= k < s.len()
                &&& forall|j: int| 0 <= j < s.len() ==> (#[trigger] s[k]).cap <= (#[trigger] s[j]).cap
                &&& after_free(s, b, limit).to_multiset().insert(s[k]) == s.to_multiset().insert(b)
            },
        b.cap <= limit && cap_sum(s) + b.cap > limit ==> after_free(s, b, limit).len() <= s.len(),
        b.cap <= limit && cap_sum(s) + b.cap > limit ==> after_free(s, b, limit) == with_room(s, b.cap as int, limit).push(b),
{
    if b.cap <= limit {
        lemma_with_room(s, b.cap as int, limit);
        lemma_cap_nonneg(s);
        if s.len() > 0 {
            lemma_smallest_at(s);
        }
        if cap_sum(s) + b.cap <= limit {
            assert(with_room(s, b.cap as int, limit) == s);
            if s.len() == 8 {
                let k = smallest_at(s);
                one_block_leaves(s, k);
                let r = without(s, k);
                r.to_multiset_ensures();
                if s[k].cap < b.cap {
                    assert(after_free(s, b, limit) == r.push(b));
                    assert(r.push(b).to_multiset() =~= r.to_multiset().insert(b));
                    assert(r.to_multiset().insert(b).insert(s[k]) =~= r.to_multiset().insert(s[k]).insert(b));
                    assert(after_free(s, b, limit).to_multiset().insert(s[k]) == s.to_multiset().insert(b));
                }
            }
        } else if s.len() > 0 {
            let i = smallest_at(s);
            lemma_without(s, i);
            lemma_with_room(without(s, i), b.cap as int, limit);
        }
    }
}

impl<B> Cache<B> {
    /// The books are in order.
    pub open spec fn wf(&self) -> bool {
        self.blocks@.len() <= SLOTS && self.cached == cap_sum(self.blocks@)
    }

    /// An empty cache.
    pub fn new() -> (r: Self)
        ensures
            r.wf(),
            r.blocks@ == Seq::<Block<B>>::empty(),
            r.limit == DEFAULT_LIMIT,
    {
        Cache { blocks: Vec::new(), cached: 0, limit: DEFAULT_LIMIT }
    }

    /// The first of the smallest blocks.
    fn smallest(&self) -> (r: usize)
        requires
            self.blocks@.len() > 0,
        ensures
            is_smallest(self.blocks@, r as int),
            r == smallest_at(self.blocks@),
    {
        let n: usize = self.blocks.len();
        let mut s: usize = 0;
        let mut i: usize = 1;
        while i < n
            invariant
                1 <= i <= n == self.blocks@.len(),
                s < i,
                forall|k: int| 0 <= k < i ==> self.blocks@[s as int].cap <= (#[trigger] self.blocks@[k]).cap,
                forall|k: int| 0 <= k < s ==> self.blocks@[s as int].cap < (#[trigger] self.blocks@[k]).cap,
            decreases n - i,
        {
            if self.blocks[i].cap < self.blocks[s].cap {
                s = i;
            }
            i += 1;
        }
        proof {
            lemma_smallest_unique(self.blocks@, s as int);
        }
        s
    }

    /// Removes slot `i`; returns its block.
    fn drop_slot(&mut self, i: usize) -> (r: Block<B>)
        requires
            old(self).wf(),
            i < old(self).blocks@.len(),
        ensures
            final(self).wf(),
            final(self).limit == old(self).limit,
            r == old(self).blocks@[i as int],
            final(self).blocks@ == without(old(self).blocks@, i as int),
    {
        let ghost s = self.blocks@;
        proof {
            lemma_without(s, i as int);
            lemma_cap_update(s, i as int, s[i as int]);
        }
        let b: Block<B> = self.blocks.swap_remove(i);
        self.cached = self.cached - b.cap;
        assert(self.blocks@ =~= without(s, i as int));
        b
    }

    /// A cached block for `bytes` bytes: the smallest that is large enough.
    pub fn allocate(&mut self, bytes: usize) -> (r: Option<Block<B>>)
        requires
            old(self).wf(),
        ensures
            final(self).wf(),
            final(self).limit == old(self).limit,
            r is None <==> bytes < MIN_BLOCK || forall|k: int| 0 <= k < old(self).blocks@.len() ==> (#[trigger] old(self).blocks@[k]).cap < bytes,
            r is None ==> final(self).blocks@ == old(self).blocks@,
            r matches Some(b) ==> exists|i: int|
                {
                    &&& 0 <= i < old(self).blocks@.len()
                    &&& #[trigger] old(self).blocks@[i] == b
                    &&& b.cap >= bytes
                    &&& forall|k: int| 0 <= k < old(self).blocks@.len() && (#[trigger] old(self).blocks@[k]).cap >= bytes ==> b.cap <= old(self).blocks@[k].cap
                    &&& final(self).blocks@ == without(old(self).blocks@, i)
                },
    {
        if bytes < MIN_BLOCK {
            return None;
        }
        let n: usize = self.blocks.len();
        let mut best: Option<usize> = None;
        let mut i: usize = 0;
        while i < n
            invariant
                i <= n == self.blocks@.len(),
                self.wf(),
                *self == *old(self),
                best is None ==> forall|k: int| 0 <= k < i ==> (#[trigger] self.blocks@[k]).cap < bytes,
                best matches Some(b) ==> b < i && self.blocks@[b as int].cap >= bytes && forall|k: int|
                    0 <= k < i && (#[trigger] self.blocks@[k]).cap >= bytes ==> self.blocks@[b as int].cap <= self.blocks@[k].cap,
            decreases n - i,
        {
            if self.blocks[i].cap >= bytes {
                let better = match best {
                    None => true,
                    Some(b) => self.blocks[i].cap < self.blocks[b].cap,
                };
                if better {
                    best = Some(i);
                }
            }
            i += 1;
        }
        match best {
            None => None,
            Some(b) => {
                let r: Block<B> = self.drop_slot(b);
                assert(old(self).blocks@[b as int] == r);
                Some(r)
            },
        }
    }

    /// Takes a freed block back; returns the blocks that are not kept. A small
    /// block is never kept.
    pub fn deallocate(&mut self, me: Block<B>) -> (victims: Vec<Block<B>>)
        requires
            old(self).wf(),
        ensures
            final(self).wf(),
            final(self).limit == old(self).limit,
            final(self).blocks@ == if me.cap < MIN_BLOCK {
                old(self).blocks@
            } else {
                after_free(old(self).blocks@, me, old(self).limit as int)
            },
            permutation(old(self).blocks@.push(me), final(self).blocks@ + victims@),
    {
        let ghost s = self.blocks@;
        let limit: usize = self.limit;
        let mut victims: Vec<Block<B>> = Vec::new();
        let cap: usize = me.cap;
        if cap < MIN_BLOCK || cap > limit {
            victims.push(me);
            assert(s + victims@ =~= s.push(me));
            return victims;
        }
        assert(s + victims@ =~= s);
        while self.blocks.len() > 0 && self.cached > limit - cap
            invariant
                self.wf(),
                cap <= limit == self.limit,
                with_room(self.blocks@, cap as int, limit as int) == with_room(s, cap as int, limit as int),
                permutation(s, self.blocks@ + victims@),
            decreases self.blocks@.len(),
        {
            let ghost t = self.blocks@;
            let ghost v = victims@;
            let k: usize = self.smallest();
            let b: Block<B> = self.drop_slot(k);
            victims.push(b);
            proof {
                lemma_moved(t, k as int, v);
            }
        }
        let ghost t = self.blocks@;
        let ghost v = victims@;
        proof {
            assert(t == with_room(s, cap as int, limit as int)) by {
                if t.len() == 0 {
                    assert(cap_sum(t) == 0);
                }
            }
        }
        let ghost x = seq![me];
        proof {
            lemma_permutation_add(s, x, t + v, x);
            lemma_permutation_swap(v, x);
            lemma_permutation_add(t, v + x, t, x + v);
            assert(s + x =~= s.push(me));
            assert((t + v) + x =~= t + (v + x));
        }
        if self.blocks.len() == SLOTS {
            let k: usize = self.smallest();
            if self.blocks[k].cap >= cap {
                victims.push(me);
                assert(t + victims@ =~= t + (v + x));
                return victims;
            }
            let b: Block<B> = self.drop_slot(k);
            victims.push(b);
            proof {
                let r = self.blocks@;
                let y = seq![b];
                lemma_moved(t, k as int, v);
                lemma_without(t, k as int);
                lemma_permutation_add(s, x, r + victims@, x);
                lemma_permutation_swap(victims@, x);
                lemma_permutation_add(r, victims@ + x, r, x + victims@);
                assert((r + victims@) + x =~= r + (victims@ + x));
                assert(r.push(me) + victims@ =~= r + (x + victims@));
                lemma_permutation_trans_moved(s, t, v, r, victims@);
                lemma_cap_push(r, me);
            }
        } else {
            proof {
                lemma_cap_push(t, me);
                assert(t.push(me) + v =~= t + (x + v));
            }
        }
        proof {
            lemma_with_room(s, cap as int, limit as int);
        }
        self.blocks.push(me);
        self.cached = self.cached + cap;
        victims
    }
}

proof fn lemma_permutation_trans_moved<A>(s: Seq<A>, t: Seq<A>, v: Seq<A>, r: Seq<A>, w: Seq<A>)
    requires
        permutation(s, t + v),
        permutation(t + v, r + w),
    ensures
        permutation(s, r + w),
{
}

/// A block moved out of its slot.
proof fn lemma_moved<B>(t: Seq<Block<B>>, k: int, v: Seq<Block<B>>)
    requires
        0 <= k < t.len(),
    ensures
        permutation(t + v, without(t, k) + v.push(t[k])),
{
    let r = without(t, k);
    let x = seq![t[k]];
    assert(permutation(t, r + x)) by {
        let last = seq![t.last()];
        let (a, c) = (t.take(k), t.subrange(k + 1, t.len() - 1));
        if k == t.len() - 1 {
            assert(r + x =~= t);
        } else {
            assert(t =~= ((a + x) + c) + last);
            assert(r =~= (a + last) + c);
            lemma_permutation_swap(x, c + last);
            lemma_permutation_swap(c, last);
            lemma_permutation_add(c + last, x, last + c, x);
            lemma_permutation_add(a, x + (c + last), a, (c + last) + x);
            lemma_permutation_add(a, (c + last) + x, a, (last + c) + x);
            assert(((a + x) + c) + last =~= a + (x + (c + last)));
            assert(a + ((last + c) + x) =~= r + x);
        }
    }
    lemma_permutation_swap(v, x);
    lemma_permutation_add(t, v, r + x, v);
    lemma_permutation_add(r, x + v, r, v + x);
    assert((r + x) + v =~= r + (x + v));
    assert(r + (v + x) =~= r + v.push(t[k]));
}

/// Empties the cache; returns the blocks that it kept for reuse. Never needed
/// for correctness.
pub fn release_memory<B>(cache: &mut Cache<B>) -> (held: Vec<Block<B>>)
    ensures
        held@ == old(cache).blocks@,
        final(cache).wf(),
        final(cache).blocks@ == Seq::<Block<B>>::empty(),
        final(cache).limit == old(cache).limit,
{
    let mut held: Vec<Block<B>> = Vec::new();
    core::mem::swap(&mut held, &mut cache.blocks);
    cache.cached = 0;
    held
}

/// Sets how many bytes of freed blocks are kept for the next sort. 0 disables
/// the cache; the blocks held now stay until `release_memory` is called.
pub fn set_memory_cache_limit<B>(cache: &mut Cache<B>, bytes: usize)
    ensures
        *final(cache) == (Cache { limit: bytes, ..*old(cache) }),
{
    cache.limit = bytes;
}

} // verus!
