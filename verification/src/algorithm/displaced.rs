//! The displaced-element route, for nearly sorted input. The elements that
//! break the ascending order are pulled out (an outlier-popping rule keeps a
//! long sorted subsequence), the kept elements are compacted in place, only
//! the displaced ones are sorted, and one backward merge puts them back.
//! O(n + k log k) for k displaced elements, memory O(k).
use crate::algorithm::{MAX_POP, RING};
use crate::compare::{std_sort_by, Compare};
use crate::less::{all_accepted, in_order, notes_of, order_of, sorted_by, tells_order, Less};
use crate::mergesort::{merge_up, upward_tally};
use crate::order::{
    by_key, iota, lemma_by_key_total, lemma_map_permutation, lemma_merged_back,
    lemma_permutation_add, lemma_permutation_cancel, lemma_permutation_len,
    lemma_permutation_member, lemma_permutation_swap, lemma_picked_iota, lemma_picked_permutation,
    lemma_picked_sort, lemma_position_le_total, lemma_positions_distinct, lemma_stably, merged_back,
    permutation, picked, position_le, sorted, stable_sort_of, stably, total_preorder,
};
use crate::view::{
    after_copies, after_times, alloc_array, books, give_array, given, keeps_record, lemma_told_add,
    lemma_told_two, note_writes, space, table_note, take_array, taken, told, Alloc, AllocError,
    Books, Hooks, NoHooks, Note,
};
use vstd::prelude::*;

verus! {

/// A displaced element, its original position, and the height of the kept
/// stack when it was pulled out.
pub struct Disp<T> {
    pub elem: T,
    pub pos: u32,
    pub rank: u32,
}

/// Growable arrays for the displaced elements, their original positions and
/// their ranks. Growth failure is reported, not propagated, so the route can
/// restore the array and give up cleanly.
pub struct DispBuf<T> {
    elem: Vec<T>,
    pos: Vec<u32>,
    rank: Vec<u32>,
    cap: usize,
}

impl<T> View for DispBuf<T> {
    type V = Seq<Disp<T>>;

    closed spec fn view(&self) -> Seq<Disp<T>> {
        Seq::new(self.elem@.len(), |i: int| Disp { elem: self.elem@[i], pos: self.pos@[i], rank: self.rank@[i] })
    }
}

/// The bytes of the arrays for `n` displaced elements.
pub open spec fn disp_space<T>(n: nat) -> nat {
    space::<T>(n) + space::<u32>(n) + space::<u32>(n)
}

/// The books once the arrays for `n` displaced elements were set up.
pub open spec fn disp_taken<T>(b: Books, n: nat) -> Books {
    taken::<u32>(taken::<u32>(taken::<T>(b, n), n), n)
}

/// The books once the arrays for `n` displaced elements were given back.
pub open spec fn disp_given<T>(b: Books, n: nat) -> Books {
    given::<u32>(given::<u32>(given::<T>(b, n), n), n)
}

/// The arrays once there is room for `need` displaced elements: they are doubled
/// until there is.
pub open spec fn disp_grown<T>(b: Books, room: nat, need: int) -> (nat, Books)
    decreases
        if need > room {
            need - room
        } else {
            0
        },
{
    if need <= room || room == 0 {
        (room, b)
    } else {
        disp_grown::<T>(disp_given::<T>(disp_taken::<T>(b, room * 2), room), room * 2, need)
    }
}

impl<T: Copy> DispBuf<T> {
    /// How many displaced elements there is room for.
    pub closed spec fn room(&self) -> nat {
        self.cap as nat
    }

    /// Every displaced element has a position and a rank.
    pub closed spec fn wf(&self) -> bool {
        &&& self.pos@.len() == self.elem@.len()
        &&& self.rank@.len() == self.elem@.len()
    }

    /// Room for `cap` displaced elements.
    pub fn new<M: Alloc, H: Hooks>(cap: usize, mem: &mut M, hooks: &mut H) -> (r: Result<Self, AllocError>)
        ensures
            keeps_record(*old(hooks), *final(hooks)),
            r matches Ok(b) ==> b.wf() && b@ == Seq::<Disp<T>>::empty() && b.room() == cap && final(mem).refusals() == old(mem).refusals(),
            r is Ok ==> final(mem).held() == old(mem).held() + disp_space::<T>(cap as nat),
            r is Ok ==> books(*final(mem)) == disp_taken::<T>(books(*old(mem)), cap as nat),
            final(hooks).tally() == old(hooks).tally(),
            r is Err ==> final(mem).refusals() == old(mem).refusals() + 1 && final(mem).held() == old(mem).held(),
    {
        let elem: Vec<T> = match take_array(mem, cap, hooks) {
            Ok(v) => v,
            Err(e) => {
                return Err(e);
            },
        };
        let pos: Vec<u32> = match take_array(mem, cap, hooks) {
            Ok(v) => v,
            Err(e) => {
                give_array(mem, elem, cap, hooks);
                return Err(e);
            },
        };
        let rank: Vec<u32> = match take_array(mem, cap, hooks) {
            Ok(v) => v,
            Err(e) => {
                give_array(mem, elem, cap, hooks);
                give_array(mem, pos, cap, hooks);
                return Err(e);
            },
        };
        Ok(DispBuf { elem, pos, rank, cap })
    }

    /// Gives the memory back.
    pub fn release<M: Alloc, H: Hooks>(self, mem: &mut M, hooks: &mut H)
        requires
            disp_space::<T>(self.room()) <= old(mem).held(),
        ensures
            keeps_record(*old(hooks), *final(hooks)),
            final(mem).refusals() == old(mem).refusals(),
            final(mem).held() == old(mem).held() - disp_space::<T>(self.room()),
            books(*final(mem)) == disp_given::<T>(books(*old(mem)), self.room()),
            final(hooks).tally() == old(hooks).tally(),
    {
        let cap: usize = self.cap;
        give_array(mem, self.elem, cap, hooks);
        give_array(mem, self.pos, cap, hooks);
        give_array(mem, self.rank, cap, hooks);
    }

    /// Capacity.
    pub fn capacity(&self) -> (r: usize)
        ensures
            r == self.room(),
    {
        self.cap
    }

    /// Doubles the capacity; false, with nothing changed, if the memory is not
    /// there.
    pub fn grow<M: Alloc, H: Hooks>(&mut self, mem: &mut M, hooks: &mut H) -> (r: bool)
        requires
            disp_space::<T>(old(self).room()) <= old(mem).held(),
            old(self).room() * 2 <= usize::MAX,
        ensures
            keeps_record(*old(hooks), *final(hooks)),
            final(self)@ == old(self)@,
            final(self).wf() == old(self).wf(),
            final(hooks).tally() == old(hooks).tally(),
            r ==> books(*final(mem)) == disp_given::<T>(disp_taken::<T>(books(*old(mem)), old(self).room() * 2), old(self).room()),
            r ==> final(self).room() == old(self).room() * 2 && final(mem).refusals() == old(mem).refusals(),
            !r ==> final(self).room() == old(self).room() && final(mem).refusals() == old(mem).refusals() + 1,
            final(mem).held() - disp_space::<T>(final(self).room()) == old(mem).held() - disp_space::<T>(old(self).room()),
    {
        let ncap: usize = self.cap * 2;
        let mut ne: Vec<T> = match take_array(mem, ncap, hooks) {
            Ok(v) => v,
            Err(_) => {
                return false;
            },
        };
        let mut np: Vec<u32> = match take_array(mem, ncap, hooks) {
            Ok(v) => v,
            Err(_) => {
                give_array(mem, ne, ncap, hooks);
                return false;
            },
        };
        let mut nr: Vec<u32> = match take_array(mem, ncap, hooks) {
            Ok(v) => v,
            Err(_) => {
                give_array(mem, ne, ncap, hooks);
                give_array(mem, np, ncap, hooks);
                return false;
            },
        };
        ne.append(&mut self.elem);
        np.append(&mut self.pos);
        nr.append(&mut self.rank);
        core::mem::swap(&mut self.elem, &mut ne);
        core::mem::swap(&mut self.pos, &mut np);
        core::mem::swap(&mut self.rank, &mut nr);
        assert(self.elem@ =~= old(self).elem@);
        assert(self.pos@ =~= old(self).pos@);
        assert(self.rank@ =~= old(self).rank@);
        give_array(mem, ne, self.cap, hooks);
        give_array(mem, np, self.cap, hooks);
        give_array(mem, nr, self.cap, hooks);
        self.cap = ncap;
        true
    }

    /// Displaced element `i`.
    pub fn elem(&self, i: usize) -> (r: T)
        requires
            i < self@.len(),
        ensures
            r == self@[i as int].elem,
    {
        self.elem[i]
    }

    /// Records displaced element `i`, which follows those recorded so far.
    pub fn set(&mut self, i: usize, e: T, p: u32, r: u32)
        requires
            old(self).wf(),
            i == old(self)@.len(),
            i < old(self).room(),
        ensures
            final(self).wf(),
            final(self)@ == old(self)@.push(Disp { elem: e, pos: p, rank: r }),
            final(self).room() == old(self).room(),
    {
        self.elem.push(e);
        self.pos.push(p);
        self.rank.push(r);
    }

    /// Original position of displaced element `i`.
    pub fn pos(&self, i: usize) -> (r: u32)
        requires
            self.wf(),
            i < self@.len(),
        ensures
            r == self@[i as int].pos,
    {
        self.pos[i]
    }

    /// Rank of displaced element `i`.
    pub fn rank(&self, i: usize) -> (r: u32)
        requires
            self.wf(),
            i < self@.len(),
        ensures
            r == self@[i as int].rank,
    {
        self.rank[i]
    }
}

/// The positions of the displaced elements.
pub open spec fn places<T>(items: Seq<Disp<T>>) -> Seq<int> {
    Seq::new(items.len(), |t: int| items[t].pos as int)
}

/// The state of the route after `scanned` elements of `orig`: `a` holds the
/// elements of the positions `kp` in front and those not scanned yet in place,
/// `items` holds the others.
pub open spec fn pulled_apart<T>(orig: Seq<T>, kp: Seq<int>, a: Seq<T>, items: Seq<Disp<T>>, scanned: int) -> bool {
    &&& 0 <= scanned <= orig.len()
    &&& a.len() == orig.len()
    &&& kp.len() + items.len() == scanned
    &&& forall|i: int, j: int| 0 <= i < j < kp.len() ==> #[trigger] kp[i] < #[trigger] kp[j]
    &&& forall|j: int| 0 <= j < kp.len() ==> 0 <= #[trigger] kp[j] < scanned && a[j] == orig[kp[j]]
    &&& forall|t: int| 0 <= t < items.len() ==> (#[trigger] items[t]).pos < scanned && items[t].elem == orig[items[t].pos as int]
    &&& permutation(iota(scanned as nat), kp + places(items))
    &&& forall|k: int| scanned <= k < a.len() ==> a[k] == orig[k]
}

/// The numbers of the displaced elements in the order of their positions.
struct ByPlace<'a> {
    pos: &'a [u32],
}

impl<'a> Compare<u32> for ByPlace<'a> {
    closed spec fn follows(&self, le: spec_fn(u32, u32) -> bool) -> bool {
        le == by_key(|x: u32| self.pos@[x as int] as int)
    }

    closed spec fn takes(&self, x: u32, y: u32) -> bool {
        x < self.pos@.len() && y < self.pos@.len()
    }

    open spec fn loads(&self, a: u32, b: u32) -> Option<u64> {
        None
    }

    fn note_bytes<H: Hooks>(&self, a: &u32, b: &u32, hooks: &mut H) {
    }

    proof fn follows_total(&self, le: spec_fn(u32, u32) -> bool) {
        lemma_by_key_total(|x: u32| self.pos@[x as int] as int);
    }

    fn order(&self, a: &u32, b: &u32) -> (r: i32) {
        let pa: u32 = self.pos[*a as usize];
        let pb: u32 = self.pos[*b as usize];
        if pa < pb {
            -1
        } else if pa > pb {
            1
        } else {
            0
        }
    }
}

/// The displaced elements `d` in the order `ix`.
spec fn listed<T>(d: Seq<Disp<T>>, ix: Seq<u32>) -> Seq<Disp<T>> {
    ix.map_values(|x: u32| d[x as int])
}

/// Puts the numbers of the displaced elements in the order of their positions
/// in place of the ranks.
fn list_by_place<T: Copy>(disp: &mut DispBuf<T>)
    requires
        old(disp).wf(),
        old(disp)@.len() <= 0xFFFF_FFFF,
    ensures
        final(disp).wf(),
        final(disp).elem == old(disp).elem,
        final(disp).pos == old(disp).pos,
        final(disp).room() == old(disp).room(),
        forall|t: int| 0 <= t < old(disp)@.len() ==> (#[trigger] final(disp).rank@[t] as int) < old(disp)@.len(),
        permutation(old(disp)@, listed(old(disp)@, final(disp).rank@)),
        forall|t: int, u: int|
            0 <= t <= u < old(disp)@.len() ==> (#[trigger] listed(old(disp)@, final(disp).rank@)[t]).pos <= (#[trigger] listed(old(disp)@, final(disp).rank@)[u]).pos,
{
    let ghost d = disp@;
    let nd: usize = disp.elem.len();
    let mut t: usize = 0;
    while t < nd
        invariant
            disp.wf(),
            t <= nd == disp.elem@.len() == d.len(),
            nd <= 0xFFFF_FFFF,
            disp.elem == old(disp).elem,
            disp.pos == old(disp).pos,
            disp.room() == old(disp).room(),
            forall|u: int| 0 <= u < t ==> disp.rank@[u] == u as u32,
        decreases nd - t,
    {
        disp.rank[t] = t as u32;
        t += 1;
    }
    let ghost ids = disp.rank@;
    let order = ByPlace { pos: disp.pos.as_slice() };
    proof {
        assert(order.follows(by_key(|x: u32| order.pos@[x as int] as int)));
    }
    std_sort_by(disp.rank.as_mut_slice(), &order);
    proof {
        let ix = disp.rank@;
        let f = |x: u32| d[x as int];
        let le = by_key(|x: u32| order.pos@[x as int] as int);
        lemma_permutation_len(ids, ix);
        lemma_map_permutation(ids, ix, f);
        assert(ids.map_values(f) =~= d);
        assert forall|t: int| 0 <= t < d.len() implies (#[trigger] ix[t] as int) < d.len() by {
            let u = lemma_permutation_member(ix, ids, t);
        }
        assert forall|t: int, u: int| 0 <= t <= u < d.len() implies (#[trigger] listed(d, ix)[t]).pos <= (#[trigger] listed(d, ix)[u]).pos by {
            assert(order.follows(le));
            assert(le(ix[t], ix[u]));
        }
    }
}

/// Undoes the compaction: puts every element that was scanned back where it
/// came from.
#[verifier::rlimit(40)]
pub fn restore_displaced<T: Copy, H: Hooks>(a: &mut [T], disp: &mut DispBuf<T>, nk: usize, scanned: usize, hooks: &mut H, Ghost(orig): Ghost<Seq<T>>, Ghost(kp): Ghost<Seq<int>>)
    requires
        old(disp).wf(),
        orig.len() <= 0xFFFF_FFFF,
        nk == kp.len(),
        pulled_apart(orig, kp, old(a)@, old(disp)@, scanned as int),
    ensures
        keeps_record(*old(hooks), *final(hooks)),
        final(a)@ == orig,
        final(hooks).tally() == after_copies::<H>(old(hooks).tally(), scanned as int),
        final(disp).room() == old(disp).room(),
{
    let ghost before = disp@;
    list_by_place(disp);
    let ghost ix = disp.rank@;
    let ghost items = listed(before, ix);
    proof {
        lemma_places_permutation(before, items);
        lemma_permutation_add(kp, places(before), kp, places(items));
        lemma_permutation_len(before, items);
        assert forall|t: int| 0 <= t < items.len() implies (#[trigger] items[t]).pos < scanned && items[t].elem == orig[items[t].pos as int] by {
            let u = lemma_permutation_member(items, before, t);
        }
        assert forall|t: int| 0 <= t < items.len() implies (#[trigger] items[t]).pos == disp.pos@[ix[t] as int] && items[t].elem == disp.elem@[ix[t] as int] by {
        }
        assert(kp.take(nk as int) =~= kp);
        assert(items.take(items.len() as int) =~= items);
    }
    let mut t: usize = disp.rank.len();
    let mut k: usize = nk;
    let mut p: usize = scanned;
    while p > 0
        invariant
            keeps_record(*old(hooks), *hooks),
            hooks.tally() == after_copies::<H>(old(hooks).tally(), scanned - p),
            k + t == p,
            k <= nk == kp.len(),
            t <= items.len(),
            ix == disp.rank@,
            ix.len() == items.len(),
            disp.wf(),
            disp.elem@.len() == items.len(),
            disp.room() == old(disp).room(),
            forall|u: int| 0 <= u < items.len() ==> (#[trigger] ix[u] as int) < items.len(),
            forall|u: int| 0 <= u < items.len() ==> (#[trigger] items[u]).pos == disp.pos@[ix[u] as int] && items[u].elem == disp.elem@[ix[u] as int],
            p <= scanned <= orig.len(),
            a@.len() == orig.len(),
            forall|i: int, j: int| 0 <= i < j < kp.len() ==> #[trigger] kp[i] < #[trigger] kp[j],
            forall|j: int| 0 <= j < k ==> 0 <= #[trigger] kp[j] < p && a@[j] == orig[kp[j]],
            forall|u: int| 0 <= u < t ==> (#[trigger] items[u]).pos < p && items[u].elem == orig[items[u].pos as int],
            forall|t: int, u: int| 0 <= t <= u < items.len() ==> (#[trigger] items[t]).pos <= (#[trigger] items[u]).pos,
            permutation(iota(p as nat), kp.take(k as int) + places(items.take(t as int))),
            forall|q: int| p <= q < a@.len() ==> a@[q] == orig[q],
        decreases p,
    {
        p -= 1;
        let ghost kt = kp.take(k as int);
        let ghost it = places(items.take(t as int));
        let ghost v = p as int;
        proof {
            assert(iota((p + 1) as nat)[v] == v);
            let w = lemma_permutation_member(iota((p + 1) as nat), kt + it, v);
            if w < k {
                assert(kp[w] == v);
                if w < k - 1 {
                    assert(kp[w] < kp[k - 1]);
                }
            } else {
                assert(items[w - k].pos == v);
                assert(items[w - k].pos <= items[t - 1].pos);
            }
            assert(iota((p + 1) as nat) =~= iota(p as nat).push(v));
        }
        if t > 0 && disp.pos[disp.rank[t - 1] as usize] as usize == p {
            proof {
                assert(kt + it =~= (kt + places(items.take(t - 1))).push(v));
                lemma_permutation_cancel(iota(p as nat), kt + places(items.take(t - 1)), v);
                assert forall|j: int| 0 <= j < k implies 0 <= #[trigger] kp[j] < p by {
                    lemma_absent(kt, places(items.take(t - 1)), iota(p as nat), j, v);
                }
            }
            t -= 1;
            let x: usize = disp.rank[t] as usize;
            a[p] = disp.elem[x];
            hooks.on_read(disp.elem.as_slice(), x);
            hooks.on_write(&*a, p);
            proof {
                assert forall|u: int| 0 <= u < t implies (#[trigger] items[u]).pos < p by {
                    lemma_absent(kt, places(items.take(t as int)), iota(p as nat), k + u, v);
                }
            }
        } else {
            proof {
                assert(kp[k - 1] == v);
                let kl = kp.take(k - 1);
                assert(kt =~= kl.push(v));
                lemma_permutation_swap(it, seq![v]);
                lemma_permutation_add(kl, it + seq![v], kl, seq![v] + it);
                assert(kl + (it + seq![v]) =~= (kl + it).push(v));
                assert(kl + (seq![v] + it) =~= kt + it);
                lemma_permutation_cancel(iota(p as nat), kl + it, v);
                assert forall|u: int| 0 <= u < t implies (#[trigger] items[u]).pos < p by {
                    if items[u].pos == v {
                        assert(items[u].pos <= items[t - 1].pos);
                    }
                }
                assert forall|j: int| 0 <= j < k - 1 implies 0 <= #[trigger] kp[j] < p by {
                    assert(kp[j] < kp[k - 1]);
                }
            }
            k -= 1;
            a[p] = a[k];
            hooks.on_read(&*a, k);
            hooks.on_write(&*a, p);
        }
    }
    assert(a@ =~= orig);
}

/// A position outside `ids` does not stand in a permutation of `ids`.
proof fn lemma_absent(x: Seq<int>, y: Seq<int>, ids: Seq<int>, j: int, v: int)
    requires
        permutation(ids, x + y),
        0 <= j < (x + y).len(),
        forall|i: int| 0 <= i < ids.len() ==> #[trigger] ids[i] != v,
    ensures
        (x + y)[j] != v,
{
    let i = lemma_permutation_member(x + y, ids, j);
    assert(ids[i] != v);
}

proof fn lemma_places_permutation<T>(a: Seq<Disp<T>>, b: Seq<Disp<T>>)
    requires
        permutation(a, b),
    ensures
        permutation(places(a), places(b)),
{
    let f = |d: Disp<T>| d.pos as int;
    lemma_map_permutation(a, b, f);
    assert(places(a) =~= a.map_values(f));
    assert(places(b) =~= b.map_values(f));
}

/// The least rank from `t` on.
pub open spec fn least_rank<T>(items: Seq<Disp<T>>, t: int) -> int
    decreases items.len() - t,
{
    if t + 1 >= items.len() {
        items[t].rank as int
    } else {
        let m = least_rank(items, t + 1);
        if items[t].rank < m {
            items[t].rank as int
        } else {
            m
        }
    }
}

/// The least rank from `t` on is the number of kept elements that precede
/// element `t` in the input.
pub open spec fn ranked<T>(kp: Seq<int>, items: Seq<Disp<T>>) -> bool {
    forall|t: int|
        0 <= t < items.len() ==> 0 <= #[trigger] least_rank(items, t) <= kp.len() && (forall|j: int| 0 <= j < kp.len() ==> (#[trigger] kp[j] < items[t].pos <==> j < least_rank(items, t)))
}

proof fn lemma_least_rank_push<T>(items: Seq<Disp<T>>, x: Disp<T>, t: int)
    requires
        0 <= t <= items.len(),
    ensures
        least_rank(items.push(x), t) == if t == items.len() || x.rank < least_rank(items, t) {
            x.rank as int
        } else {
            least_rank(items, t)
        },
    decreases items.len() - t,
{
    if t < items.len() {
        assert(items.push(x)[t] == items[t]);
        if t + 1 < items.len() {
            lemma_least_rank_push(items, x, t + 1);
        } else {
            lemma_least_rank_push(items, x, t + 1);
        }
    }
}

/// How many of the kept elements `kept` on top give way to `x`, from `j` on: as
/// few as leave an element that does not go after `x`, or none at all. None
/// give way where that takes more than `MAX_POP`.
pub open spec fn pops_from<T>(le: spec_fn(T, T) -> bool, kept: Seq<T>, x: T, j: int) -> int
    decreases MAX_POP + 1 - j,
{
    if j > MAX_POP {
        0
    } else if kept.len() <= j || le(kept[kept.len() - 1 - j], x) {
        j
    } else {
        pops_from(le, kept, x, j + 1)
    }
}

pub proof fn lemma_pops_range<T>(le: spec_fn(T, T) -> bool, kept: Seq<T>, x: T, j: int)
    requires
        1 <= j <= kept.len(),
    ensures
        0 <= pops_from(le, kept, x, j) <= kept.len(),
    decreases MAX_POP + 1 - j,
{
    if j <= MAX_POP && j < kept.len() {
        lemma_pops_range(le, kept, x, j + 1);
    }
}

/// So many elements may be displaced once `i` of `n` have been scanned.
pub open spec fn displaced_allowed(n: int, i: int) -> int {
    if n / 8 < i / 8 + 64 {
        n / 8 + 1
    } else {
        i / 8 + 65
    }
}

/// Whether the scan gets through from element `i` on, with the elements of the
/// positions `kp` kept and never more than `top` before. Each element is kept
/// where it does not go before the one on top; where it does, those on top give
/// way, or else it is displaced itself. The scan ends early when more are
/// displaced than allowed, or when one gives way whose position is no longer
/// remembered.
#[verifier::opaque]
pub open spec fn scan_ends<T>(le: spec_fn(T, T) -> bool, s: Seq<T>, kp: Seq<int>, top: int, i: int) -> bool
    decreases s.len() - i,
{
    if i >= s.len() {
        true
    } else if kp.len() == 0 || le(s[kp.last()], s[i]) {
        scan_ends(le, s, kp.push(i), top, i + 1)
    } else {
        let pops = pops_from(le, picked(s, kp), s[i], 1);
        let high = if kp.len() > top {
            kp.len() as int
        } else {
            top
        };
        let displaced = i - kp.len() + if pops == 0 {
            1
        } else {
            pops
        };
        if displaced > displaced_allowed(s.len() as int, i) {
            false
        } else if pops == 0 {
            scan_ends(le, s, kp, top, i + 1)
        } else if high > RING && kp.len() - pops < high - RING {
            false
        } else {
            scan_ends(le, s, kp.take(kp.len() - pops).push(i), high, i + 1)
        }
    }
}

/// Few enough elements of `s` are displaced for the route.
pub open spec fn few_displaced<T>(le: spec_fn(T, T) -> bool, s: Seq<T>) -> bool {
    scan_ends(le, s, Seq::empty(), 0, 0)
}

/// The record of looking from `j` on for how many kept elements give way.
pub open spec fn pops_rest<T, O: Less<T>, H: Hooks>(o: &O, le: spec_fn(T, T) -> bool, t: H::Tally, kept: Seq<T>, x: T, j: int) -> H::Tally
    decreases MAX_POP + 1 - j,
{
    if j > MAX_POP || kept.len() <= j {
        t
    } else {
        let e = kept[kept.len() - 1 - j];
        let less = !le(e, x);
        let seen = told::<H>(H::after(t, Note::Read), o.notes(x, e, less));
        if less {
            pops_rest::<T, O, H>(o, le, seen, kept, x, j + 1)
        } else {
            seen
        }
    }
}

/// The record of looking for how many kept elements give way.
pub open spec fn pops_tally<T, O: Less<T>, H: Hooks>(o: &O, le: spec_fn(T, T) -> bool, t: H::Tally, kept: Seq<T>, x: T) -> H::Tally {
    if kept.len() <= 1 {
        t
    } else {
        let e = kept[kept.len() - 2];
        let less = !le(e, x);
        let seen = told::<H>(t, o.notes(x, e, less));
        if less {
            pops_rest::<T, O, H>(o, le, seen, kept, x, 2)
        } else {
            seen
        }
    }
}

/// How many of the kept elements on top give way to `it`: none where it fits
/// below none of them.
#[verifier::rlimit(40)]
fn pops_for<T: Copy, O: Less<T>, H: Hooks>(a: &[T], nk: usize, it: T, o: &O, hooks: &mut H) -> (r: usize)
    requires
        0 < nk <= a@.len(),
        all_accepted(o, a@),
        o.accepts(it),
    ensures
        keeps_record(*old(hooks), *final(hooks)),
        r <= nk,
        r <= MAX_POP,
        0 < r < nk ==> forall|le: spec_fn(T, T) -> bool| #[trigger] o.follows(le) ==> le(a@[nk - 1 - r], it),
        forall|le: spec_fn(T, T) -> bool| #[trigger] o.follows(le) ==> r == pops_from(le, a@.take(nk as int), it, 1),
        forall|le: spec_fn(T, T) -> bool| #[trigger]
            o.follows(le) && o.tells() ==> final(hooks).tally() == pops_tally::<T, O, H>(o, le, old(hooks).tally(), a@.take(nk as int), it),
{
    let ghost kept = a@.take(nk as int);
    if nk == 1 || !o.less_seen(it, a[nk - 2], hooks) {
        return 1;
    }
    let mut j: usize = 2;
    while j <= MAX_POP
        invariant
            keeps_record(*old(hooks), *hooks),
            2 <= j <= MAX_POP + 1,
            j <= nk <= a@.len(),
            all_accepted(o, a@),
            o.accepts(it),
            kept == a@.take(nk as int),
            forall|le: spec_fn(T, T) -> bool| #[trigger] o.follows(le) ==> pops_from(le, kept, it, 1) == pops_from(le, kept, it, j as int),
            forall|le: spec_fn(T, T) -> bool| #[trigger]
                o.follows(le) && o.tells() ==> pops_tally::<T, O, H>(o, le, old(hooks).tally(), kept, it) == pops_rest::<T, O, H>(o, le, hooks.tally(), kept, it, j as int),
        decreases MAX_POP + 1 - j,
    {
        if nk <= j {
            return j;
        }
        hooks.on_read(a, nk - 1 - j);
        if !o.less_seen(it, a[nk - 1 - j], hooks) {
            return j;
        }
        j += 1;
    }
    0
}

/// Records that displaced element `i` was put aside with its position and its
/// rank.
fn note_displaced<T: Copy, H: Hooks>(disp: &DispBuf<T>, i: usize, hooks: &mut H)
    ensures
        keeps_record(*old(hooks), *final(hooks)),
        final(hooks).tally() == after_times::<H>(H::after(old(hooks).tally(), Note::Write), table_note(1, 4, false, true), 2),
{
    hooks.on_write(disp.elem.as_slice(), i);
    hooks.on_table(disp.pos.as_slice(), i, 4, false, true);
    hooks.on_table(disp.rank.as_slice(), i, 4, false, true);
    proof {
        reveal_with_fuel(after_times, 3);
    }
}

/// What the scan keeps and pulls out, without the positions.
struct Scan {
    /// The scan covered the array.
    complete: bool,
    /// How many elements are kept.
    nk: usize,
    /// How many elements were scanned.
    scanned: usize,
}

/// The ring holds the positions of the topmost kept elements.
spec fn ring_holds(ring: Seq<u32>, kp: Seq<int>, top: int) -> bool {
    &&& ring.len() == RING
    &&& kp.len() <= top
    &&& forall|s: int| 0 <= s < kp.len() && top <= s + RING ==> ring[s % (RING as int)] == #[trigger] kp[s]
}

proof fn lemma_ring_push(ring: Seq<u32>, kp: Seq<int>, top: int, i: u32, fresh: Seq<u32>)
    requires
        ring_holds(ring, kp, top),
        fresh == ring.update(kp.len() as int % (RING as int), i),
    ensures
        ring_holds(
            fresh,
            kp.push(i as int),
            if top > kp.len() {
                top
            } else {
                kp.len() as int + 1
            },
        ),
{
    let nk = kp.len() as int;
    let top2 = if top > nk {
        top
    } else {
        nk + 1
    };
    let kq = kp.push(i as int);
    assert forall|s: int| 0 <= s < kq.len() && top2 <= s + RING implies fresh[s % (RING as int)] == #[trigger] kq[s] by {
        if s < nk {
            assert(s % 256 != nk % 256) by {
                assert(0 < nk - s < 256);
            }
            assert(ring[s % (RING as int)] == kp[s]);
        }
    }
}

/// The order of displaced elements, by their numbers: by element, and by
/// original position where the elements tie.
struct DispOrder<'a, T, O> {
    disp: &'a DispBuf<T>,
    o: &'a O,
}

/// The order of the numbers of displaced elements: by element, and by original
/// position where the elements tie.
pub open spec fn disp_le<T>(d: Seq<Disp<T>>, le: spec_fn(T, T) -> bool) -> spec_fn(u32, u32) -> bool {
    |x: u32, y: u32| le(d[x as int].elem, d[y as int].elem) && (le(d[y as int].elem, d[x as int].elem) ==> d[x as int].pos <= d[y as int].pos)
}

proof fn lemma_disp_le_total<T>(d: Seq<Disp<T>>, le: spec_fn(T, T) -> bool)
    requires
        total_preorder(le),
    ensures
        total_preorder(disp_le(d, le)),
{
    let me = disp_le(d, le);
    assert forall|x: u32, y: u32| #[trigger] me(x, y) || me(y, x) by {
        assert(le(d[x as int].elem, d[y as int].elem) || le(d[y as int].elem, d[x as int].elem));
    }
    assert forall|x: u32, y: u32, z: u32| #[trigger] me(x, y) && #[trigger] me(y, z) implies me(x, z) by {
        let (ex, ey, ez) = (d[x as int].elem, d[y as int].elem, d[z as int].elem);
        assert(le(ex, ey) && le(ey, ez));
        if le(ez, ex) {
            assert(le(ez, ex) && le(ex, ey));
            assert(le(ey, ez) && le(ez, ex));
        }
    }
}

/// What is noted of a comparison of two displaced elements: both are read, they are
/// compared, and where they tie their positions are read.
pub open spec fn disp_notes<T, O: Less<T>>(o: &O, le: spec_fn(T, T) -> bool, d: Seq<Disp<T>>) -> spec_fn(u32, u32, bool) -> Seq<Note> {
    |a: u32, b: u32, less: bool|
        {
            let (x, y) = (d[a as int].elem, d[b as int].elem);
            let asked = seq![Note::Read, Note::Read] + o.notes(x, y, !le(y, x));
            if le(x, y) && le(y, x) {
                asked + seq![table_note(1, 4, true, false), table_note(1, 4, true, false)]
            } else {
                asked
            }
        }
}

impl<'a, T: Copy, O: Less<T>> Less<u32> for DispOrder<'a, T, O> {
    closed spec fn follows(&self, le: spec_fn(u32, u32) -> bool) -> bool {
        exists|of: spec_fn(T, T) -> bool| #[trigger] self.o.follows(of) && le == disp_le(self.disp@, of)
    }

    closed spec fn accepts(&self, x: u32) -> bool {
        self.disp.wf() && x < self.disp@.len() && self.o.accepts(self.disp@[x as int].elem)
    }

    closed spec fn tells(&self) -> bool {
        tells_order(self.o)
    }

    closed spec fn notes(&self, a: u32, b: u32, less: bool) -> Seq<Note> {
        disp_notes(self.o, order_of(self.o), self.disp@)(a, b, less)
    }

    proof fn follows_total(&self, le: spec_fn(u32, u32) -> bool) {
        let of = choose|of: spec_fn(T, T) -> bool| #[trigger] self.o.follows(of) && le == disp_le(self.disp@, of);
        self.o.follows_total(of);
        lemma_disp_le_total(self.disp@, of);
    }

    fn less(&self, a: u32, b: u32) -> (r: bool) {
        let mut quiet: NoHooks = NoHooks;
        self.less_seen(a, b, &mut quiet)
    }

    /// The elements are compared once; a tie is broken without another
    /// comparison.
    fn less_seen<H: Hooks>(&self, a: u32, b: u32, hooks: &mut H) -> (r: bool) {
        let ea: T = self.disp.elem(a as usize);
        let eb: T = self.disp.elem(b as usize);
        hooks.on_read(self.disp.elem.as_slice(), b as usize);
        hooks.on_read(self.disp.elem.as_slice(), a as usize);
        let first = self.o.less_seen(ea, eb, hooks);
        let second = !first && self.o.less(eb, ea);
        if !first && !second {
            hooks.on_table(self.disp.pos.as_slice(), b as usize, 4, true, false);
            hooks.on_table(self.disp.pos.as_slice(), a as usize, 4, true, false);
        }
        let r = first || (!second && self.disp.pos(a as usize) < self.disp.pos(b as usize));
        proof {
            assert forall|le: spec_fn(u32, u32) -> bool| #[trigger] self.follows(le) implies r == !le(b, a) by {
                let of = choose|of: spec_fn(T, T) -> bool| #[trigger] self.o.follows(of) && le == disp_le(self.disp@, of);
                self.o.follows_total(of);
                assert(of(ea, eb) || of(eb, ea));
            }
            if self.tells() {
                let le = order_of(self.o);
                assert(self.o.follows(le));
                self.o.follows_total(le);
                assert(le(ea, eb) || le(eb, ea));
                let t = old(hooks).tally();
                let two = seq![Note::Read, Note::Read];
                let asked = two + self.o.notes(ea, eb, first);
                lemma_told_two::<H>(t, Note::Read, Note::Read);
                lemma_told_add::<H>(t, two, self.o.notes(ea, eb, first));
                let pos = table_note(1, 4, true, false);
                lemma_told_two::<H>(told::<H>(t, asked), pos, pos);
                lemma_told_add::<H>(t, asked, seq![pos, pos]);
            }
        }
        r
    }
}

/// Some order that the comparison follows finds `s` sorted.
pub open spec fn known_sorted<T, O: Less<T>>(o: &O, s: Seq<T>) -> bool {
    exists|le: spec_fn(T, T) -> bool| #[trigger] o.follows(le) && sorted(le, s)
}

proof fn lemma_keep<T>(orig: Seq<T>, kp: Seq<int>, a: Seq<T>, items: Seq<Disp<T>>, i: int)
    requires
        pulled_apart(orig, kp, a, items, i),
        ranked(kp, items),
        i < orig.len(),
    ensures
        pulled_apart(orig, kp.push(i), a.update(kp.len() as int, orig[i]), items, i + 1),
        ranked(kp.push(i), items),
{
    let pl = places(items);
    assert(iota((i + 1) as nat) =~= iota(i as nat) + seq![i]);
    lemma_permutation_add(iota(i as nat), seq![i], kp + pl, seq![i]);
    lemma_permutation_swap(pl, seq![i]);
    lemma_permutation_add(kp, pl + seq![i], kp, seq![i] + pl);
    assert((kp + pl) + seq![i] =~= kp + (pl + seq![i]));
    assert(kp.push(i) + pl =~= kp + (seq![i] + pl));
    assert forall|t: int| 0 <= t < items.len() implies 0 <= #[trigger] least_rank(items, t) <= kp.push(i).len() && (forall|j: int|
        0 <= j < kp.push(i).len() ==> (#[trigger] kp.push(i)[j] < items[t].pos <==> j < least_rank(items, t))) by {
        assert(least_rank(items, t) <= kp.len());
        assert forall|j: int| 0 <= j < kp.push(i).len() implies (#[trigger] kp.push(i)[j] < items[t].pos <==> j < least_rank(items, t)) by {
            if j < kp.len() {
                assert(kp[j] < items[t].pos <==> j < least_rank(items, t));
            }
        }
    }
}

proof fn lemma_pull<T>(orig: Seq<T>, kp: Seq<int>, a: Seq<T>, items: Seq<Disp<T>>, i: int, x: Disp<T>)
    requires
        pulled_apart(orig, kp, a, items, i),
        ranked(kp, items),
        i < orig.len(),
        x.elem == orig[i],
        x.pos == i,
        x.rank == kp.len(),
    ensures
        pulled_apart(orig, kp, a, items.push(x), i + 1),
        ranked(kp, items.push(x)),
{
    let pl = places(items);
    let more = items.push(x);
    assert(iota((i + 1) as nat) =~= iota(i as nat) + seq![i]);
    lemma_permutation_add(iota(i as nat), seq![i], kp + pl, seq![i]);
    assert(kp + places(more) =~= (kp + pl) + seq![i]);
    assert forall|t: int| 0 <= t < more.len() implies 0 <= #[trigger] least_rank(more, t) <= kp.len() && (forall|j: int|
        0 <= j < kp.len() ==> (#[trigger] kp[j] < more[t].pos <==> j < least_rank(more, t))) by {
        lemma_least_rank_push(items, x, t);
        if t < items.len() {
            assert(least_rank(items, t) <= kp.len());
            assert(more[t] == items[t]);
        }
    }
}

proof fn lemma_pop<T>(orig: Seq<T>, kp: Seq<int>, a: Seq<T>, items: Seq<Disp<T>>, i: int, x: Disp<T>)
    requires
        pulled_apart(orig, kp, a, items, i),
        ranked(kp, items),
        kp.len() > 0,
        x.elem == a[kp.len() - 1],
        x.pos == kp.last(),
        x.rank == kp.len() - 1,
    ensures
        pulled_apart(orig, kp.drop_last(), a, items.push(x), i),
        ranked(kp.drop_last(), items.push(x)),
{
    let pl = places(items);
    let more = items.push(x);
    let v = kp.last();
    let kl = kp.drop_last();
    assert(kp =~= kl + seq![v]);
    lemma_permutation_swap(seq![v], pl);
    lemma_permutation_add(kl, seq![v] + pl, kl, pl + seq![v]);
    assert(kp + pl =~= kl + (seq![v] + pl));
    assert(kl + places(more) =~= kl + (pl + seq![v]));
    assert forall|t: int| 0 <= t < more.len() implies 0 <= #[trigger] least_rank(more, t) <= kl.len() && (forall|j: int|
        0 <= j < kl.len() ==> (#[trigger] kl[j] < more[t].pos <==> j < least_rank(more, t))) by {
        lemma_least_rank_push(items, x, t);
        if t < items.len() {
            assert(least_rank(items, t) <= kp.len());
            assert(more[t] == items[t]);
            assert forall|j: int| 0 <= j < kl.len() implies (#[trigger] kl[j] < more[t].pos <==> j < least_rank(more, t)) by {
                assert(kp[j] < items[t].pos <==> j < least_rank(items, t));
            }
        } else {
            assert forall|j: int| 0 <= j < kl.len() implies (#[trigger] kl[j] < more[t].pos <==> j < least_rank(more, t)) by {
                assert(kp[j] < kp[kp.len() - 1]);
            }
        }
    }
}

proof fn lemma_sorted_take_push<T>(le: spec_fn(T, T) -> bool, a: Seq<T>, m: int, v: T)
    requires
        total_preorder(le),
        0 <= m < a.len(),
        sorted(le, a.take(m)),
        m > 0 ==> le(a[m - 1], v),
    ensures
        sorted(le, a.update(m, v).take(m + 1)),
{
    let b = a.update(m, v).take(m + 1);
    assert(le(v, v));
    assert forall|i: int, j: int| 0 <= i <= j < b.len() implies le(#[trigger] b[i], #[trigger] b[j]) by {
        if j < m {
            assert(le(a.take(m)[i], a.take(m)[j]));
        } else if i < m {
            assert(le(a.take(m)[i], a.take(m)[m - 1]));
            assert(le(a[i], a[m - 1]) && le(a[m - 1], v));
        }
    }
}

/// The record once a displaced element was put aside.
pub open spec fn put_aside<H: Hooks>(t: H::Tally) -> H::Tally {
    after_times::<H>(H::after(t, Note::Write), table_note(1, 4, false, true), 2)
}

/// The record once `k` kept elements were put aside.
pub open spec fn popped_tally<H: Hooks>(t: H::Tally, k: int) -> H::Tally
    decreases k,
{
    if k <= 0 {
        t
    } else {
        put_aside::<H>(H::after(popped_tally::<H>(t, k - 1), Note::Read))
    }
}

/// The displaced elements once `k` more were taken from the top of those kept.
pub open spec fn popped<T>(s: Seq<T>, kp: Seq<int>, items: Seq<Disp<T>>, k: int) -> Seq<Disp<T>>
    decreases k,
{
    if k <= 0 {
        items
    } else {
        let p = kp[kp.len() - k];
        popped(s, kp, items, k - 1).push(Disp { elem: s[p], pos: p as u32, rank: (kp.len() - k) as u32 })
    }
}

/// Where a scan stands or ends: whether it got through, the kept positions, the
/// displaced elements, how many were scanned, the record, the room for displaced
/// elements, and the books of the memory.
pub struct Scanning<T, L> {
    pub complete: bool,
    pub kp: Seq<int>,
    pub items: Seq<Disp<T>>,
    pub scanned: int,
    pub tally: L,
    pub room: nat,
    pub books: Books,
}

/// Where a scan stands.
pub open spec fn standing<T, H: Hooks>(kp: Seq<int>, items: Seq<Disp<T>>, i: int, t: H::Tally, room: nat, books: Books) -> Scanning<T, H::Tally> {
    Scanning { complete: false, kp, items, scanned: i, tally: t, room, books }
}

/// One step of a scan that goes on: the most that was kept, and where it stands.
pub open spec fn scan_next<T, O: Less<T>, H: Hooks>(o: &O, le: spec_fn(T, T) -> bool, s: Seq<T>, top: int, st: Scanning<T, H::Tally>) -> Option<(int, Scanning<T, H::Tally>)> {
    let i = st.scanned;
    let kp = st.kp;
    let seen = H::after(st.tally, Note::Read);
    if kp.len() == 0 || le(s[kp.last()], s[i]) {
        let asked = if kp.len() == 0 {
            seen
        } else {
            told::<H>(seen, o.notes(s[i], s[kp.last()], false))
        };
        Some((top, Scanning { kp: kp.push(i), scanned: i + 1, tally: H::after(asked, Note::Write), ..st }))
    } else {
        let asked = told::<H>(seen, o.notes(s[i], s[kp.last()], true));
        let looked = pops_tally::<T, O, H>(o, le, asked, picked(s, kp), s[i]);
        let pops = pops_from(le, picked(s, kp), s[i], 1);
        let displaced = i - kp.len() + if pops == 0 {
            1
        } else {
            pops
        };
        let high = if kp.len() > top {
            kp.len() as int
        } else {
            top
        };
        let grown = disp_grown::<T>(st.books, st.room, displaced);
        if displaced > displaced_allowed(s.len() as int, i) || (pops != 0 && high > RING && kp.len() - pops < high - RING) {
            None
        } else if pops == 0 {
            Some(
                (
                    top,
                    Scanning {
                        items: st.items.push(Disp { elem: s[i], pos: i as u32, rank: kp.len() as u32 }),
                        scanned: i + 1,
                        tally: put_aside::<H>(looked),
                        room: grown.0,
                        books: grown.1,
                        ..st
                    },
                ),
            )
        } else {
            let put = H::after(popped_tally::<H>(looked, pops), Note::Write);
            Some(
                (
                    high,
                    Scanning {
                        kp: kp.take(kp.len() - pops).push(i),
                        items: popped(s, kp, st.items, pops),
                        scanned: i + 1,
                        tally: if kp.len() - pops + 1 >= 2 {
                            H::after(put, Note::Read)
                        } else {
                            put
                        },
                        room: grown.0,
                        books: grown.1,
                        ..st
                    },
                ),
            )
        }
    }
}

/// One that gives up: where it stands then.
pub open spec fn scan_gives_up<T, O: Less<T>, H: Hooks>(o: &O, le: spec_fn(T, T) -> bool, s: Seq<T>, st: Scanning<T, H::Tally>) -> Scanning<T, H::Tally> {
    let i = st.scanned;
    let kp = st.kp;
    let asked = told::<H>(H::after(st.tally, Note::Read), o.notes(s[i], s[kp.last()], true));
    let looked = pops_tally::<T, O, H>(o, le, asked, picked(s, kp), s[i]);
    let pops = pops_from(le, picked(s, kp), s[i], 1);
    let displaced = i - kp.len() + if pops == 0 {
        1
    } else {
        pops
    };
    let grown = disp_grown::<T>(st.books, st.room, displaced);
    if displaced > displaced_allowed(s.len() as int, i) {
        Scanning { complete: false, tally: looked, ..st }
    } else {
        Scanning { complete: false, tally: looked, room: grown.0, books: grown.1, ..st }
    }
}

/// The scan from where it stands on, with never more than `top` kept before.
#[verifier::opaque]
pub open spec fn scan_end<T, O: Less<T>, H: Hooks>(o: &O, le: spec_fn(T, T) -> bool, s: Seq<T>, top: int, st: Scanning<T, H::Tally>) -> Scanning<T, H::Tally>
    decreases s.len() - st.scanned,
{
    if st.scanned >= s.len() {
        Scanning { complete: true, ..st }
    } else {
        match scan_next::<T, O, H>(o, le, s, top, st) {
            Some((high, next)) => scan_end::<T, O, H>(o, le, s, high, next),
            None => scan_gives_up::<T, O, H>(o, le, s, st),
        }
    }
}

/// A scan goes on step by step.
proof fn lemma_scan_step<T, O: Less<T>, H: Hooks>(o: &O, le: spec_fn(T, T) -> bool, s: Seq<T>, top: int, st: Scanning<T, H::Tally>)
    requires
        st.scanned < s.len(),
    ensures
        match scan_next::<T, O, H>(o, le, s, top, st) {
            Some((high, next)) => scan_end::<T, O, H>(o, le, s, top, st) == scan_end::<T, O, H>(o, le, s, high, next),
            None => scan_end::<T, O, H>(o, le, s, top, st) == scan_gives_up::<T, O, H>(o, le, s, st),
        },
{
    reveal(scan_end);
}

/// Where a scan starts.
pub open spec fn scan_start<T, L>(t: L, room: nat, books: Books) -> Scanning<T, L> {
    Scanning { complete: false, kp: Seq::empty(), items: Seq::empty(), scanned: 0, tally: t, room, books }
}

/// The scan of the route: keeps a sorted subsequence in front of the array and
/// pulls the other elements out.
///
/// When an element is smaller than the top of the kept subsequence, either it
/// is the outlier or the top few kept elements are (a swapped-in big value, or
/// several in a row). Up to `MAX_POP` kept elements are popped if the element
/// fits right below them; otherwise the element itself is displaced. The scan
/// gives up when the displaced elements exceed 1/8 of what has been scanned so
/// far (plus slack), so unsuitable input costs a few thousand elements instead
/// of n/8.
#[verifier::rlimit(60)]
fn scan_displaced<T: Copy, O: Less<T>, M: Alloc, H: Hooks>(a: &mut [T], disp: &mut DispBuf<T>, o: &O, mem: &mut M, hooks: &mut H) -> (r: (Scan, Ghost<Seq<int>>))
    requires
        disp_space::<T>(old(disp).room()) <= old(mem).held(),
        old(a)@.len() <= 0xFFFF_FFFF,
        all_accepted(o, old(a)@),
        old(disp).wf(),
        old(disp)@ == Seq::<Disp<T>>::empty(),
        old(disp).room() > 0,
    ensures
        keeps_record(*old(hooks), *final(hooks)),
        pulled_apart(old(a)@, r.1@, final(a)@, final(disp)@, r.0.scanned as int),
        final(disp).wf(),
        r.0.nk == r.1@.len(),
        r.0.complete ==> final(disp)@.len() <= old(a)@.len() / 8 + 1,
        r.0.complete ==> r.0.scanned == old(a)@.len() && ranked(r.1@, final(disp)@),
        r.0.complete ==> in_order(o, final(a)@.take(r.0.nk as int)),
        known_sorted(o, old(a)@) ==> r.0.complete && final(disp)@.len() == 0,
        forall|le: spec_fn(T, T) -> bool| #[trigger] o.follows(le) && r.0.complete ==> few_displaced(le, old(a)@),
        forall|le: spec_fn(T, T) -> bool|
            #[trigger] o.follows(le) && !r.0.complete && final(mem).refusals() == old(mem).refusals() ==> !few_displaced(le, old(a)@),
        r.0.complete ==> final(mem).refusals() == old(mem).refusals(),
        tells_order(o) && final(mem).refusals() == old(mem).refusals() ==> scan_end::<T, O, H>(
            o,
            order_of(o),
            old(a)@,
            0,
            scan_start(old(hooks).tally(), old(disp).room(), books(*old(mem))),
        ) == (Scanning {
            complete: r.0.complete,
            kp: r.1@,
            items: final(disp)@,
            scanned: r.0.scanned as int,
            tally: final(hooks).tally(),
            room: final(disp).room(),
            books: books(*final(mem)),
        }),
        all_accepted(o, final(a)@),
        final(mem).refusals() >= old(mem).refusals(),
        final(mem).held() - disp_space::<T>(final(disp).room()) == old(mem).held() - disp_space::<T>(old(disp).room()),
{
    let n: usize = a.len();
    let ghost orig = a@;
    let limit: usize = n / 8;
    let mut ring: [u32; 256] = [0u32; 256];
    let mut nk: usize = 0;
    let mut nk_max: usize = 0;
    let mut i: usize = 0;
    let ghost mut kp: Seq<int> = Seq::empty();
    let ghost le0 = order_of(o);
    let ghost whole = scan_end::<T, O, H>(o, le0, orig, 0, scan_start(hooks.tally(), disp.room(), books(*mem)));
    proof {
        assert(kp + places(disp@) =~= iota(0));
    }
    while i < n
        invariant
            keeps_record(*old(hooks), *hooks),
            i <= n,
            n == a@.len(),
            n <= 0xFFFF_FFFF,
            limit == n / 8,
            orig == old(a)@,
            nk == kp.len(),
            all_accepted(o, orig),
            all_accepted(o, a@),
            pulled_apart(orig, kp, a@, disp@, i as int),
            ranked(kp, disp@),
            disp.wf(),
            disp@.len() <= n / 8 + 1,
            disp.room() >= disp@.len(),
            disp.room() > 0,
            in_order(o, a@.take(nk as int)),
            known_sorted(o, orig) ==> disp@.len() == 0,
            nk_max <= n,
            ring_holds(
                ring@,
                kp,
                if nk_max > nk {
                    nk_max as int
                } else {
                    nk as int
                },
            ),
            mem.refusals() == old(mem).refusals(),
            le0 == order_of(o),
            whole == scan_end::<T, O, H>(o, le0, orig, 0, scan_start(old(hooks).tally(), old(disp).room(), books(*old(mem)))),
            tells_order(o) ==> whole == scan_end::<T, O, H>(o, le0, orig, nk_max as int, standing::<T, H>(kp, disp@, i as int, hooks.tally(), disp.room(), books(*mem))),
            forall|le: spec_fn(T, T) -> bool| #[trigger] o.follows(le) ==> few_displaced(le, orig) == scan_ends(le, orig, kp, nk_max as int, i as int),
            disp_space::<T>(disp.room()) <= mem.held(),
            mem.held() - disp_space::<T>(disp.room()) == old(mem).held() - disp_space::<T>(old(disp).room()),
        decreases n - i,
    {
        let it: T = a[i];
        let ghost st = standing::<T, H>(kp, disp@, i as int, hooks.tally(), disp.room(), books(*mem));
        let ghost top0 = nk_max as int;
        hooks.on_read(&*a, i);
        proof {
            if nk > 0 {
                assert(a@[nk - 1] == orig[kp[nk - 1]]);
            }
            if tells_order(o) {
                assert(o.follows(le0));
                o.follows_total(le0);
            }
        }
        assert(it == orig[i as int]);
        if nk == 0 || !o.less_seen(it, a[nk - 1], hooks) {
            proof {
                let top = if nk_max > nk {
                    nk_max as int
                } else {
                    nk as int
                };
                lemma_ring_push(ring@, kp, top, i as u32, ring@.update(nk as int % (RING as int), i as u32));
                lemma_keep(orig, kp, a@, disp@, i as int);
                assert forall|le: spec_fn(T, T) -> bool| #[trigger] o.follows(le) implies sorted(le, a@.update(nk as int, it).take(nk + 1)) by {
                    o.follows_total(le);
                    lemma_sorted_take_push(le, a@, nk as int, it);
                }
                assert forall|le: spec_fn(T, T) -> bool| #[trigger] o.follows(le) implies few_displaced(le, orig) == scan_ends(le, orig, kp.push(i as int), nk_max as int, i + 1) by {
                    reveal(scan_ends);
                }
                kp = kp.push(i as int);
            }
            ring[nk % RING] = i as u32;
            a[nk] = it;
            hooks.on_write(&*a, nk);
            nk += 1;
            i += 1;
            proof {
                if tells_order(o) {
                    lemma_scan_step::<T, O, H>(o, le0, orig, top0, st);
                    assert(scan_next::<T, O, H>(o, le0, orig, top0, st) == Some((top0, standing::<T, H>(kp, disp@, i as int, hooks.tally(), disp.room(), books(*mem)))));
                }
            }
            continue;
        }
        proof {
            if known_sorted(o, orig) {
                let le = choose|le: spec_fn(T, T) -> bool| #[trigger] o.follows(le) && sorted(le, orig);
                assert(kp[nk - 1] < i);
                assert(le(orig[kp[nk - 1]], orig[i as int]));
            }
        }
        let pops: usize = pops_for(a, nk, it, o, hooks);
        let nd: usize = i - nk;
        let need: usize = if pops == 0 {
            1
        } else {
            pops
        };
        let step: usize = i / 8 + 64;
        let budget: usize = if limit < step {
            limit
        } else {
            step
        };
        proof {
            assert(a@.take(nk as int) =~= picked(orig, kp));
        }
        let ghost looked = hooks.tally();
        let ghost grown = disp_grown::<T>(st.books, st.room, nd + need);
        proof {
            if tells_order(o) {
                lemma_scan_step::<T, O, H>(o, le0, orig, top0, st);
                assert(looked == pops_tally::<T, O, H>(o, le0, told::<H>(H::after(st.tally, Note::Read), o.notes(it, orig[kp.last()], true)), picked(orig, kp), it));
            }
        }
        if nd + need > budget + 1 {
            proof {
                assert forall|le: spec_fn(T, T) -> bool| #[trigger] o.follows(le) implies !few_displaced(le, orig) by {
                    reveal(scan_ends);
                }
            }
            return (Scan { complete: false, nk, scanned: i }, Ghost(kp));
        }
        while nd + need > disp.capacity()
            invariant
                keeps_record(*old(hooks), *hooks),
                hooks.tally() == looked,
                grown == disp_grown::<T>(books(*mem), disp.room(), nd + need),
                disp@ == st.items,
                nd + need <= n / 8 + 1,
                n <= 0xFFFF_FFFF,
                nd <= n,
                need <= 4,
                disp.wf(),
                disp.room() > 0,
                disp.room() >= disp@.len(),
                pulled_apart(orig, kp, a@, disp@, i as int),
                ranked(kp, disp@),
                mem.refusals() == old(mem).refusals(),
                disp_space::<T>(disp.room()) <= mem.held(),
                mem.held() - disp_space::<T>(disp.room()) == old(mem).held() - disp_space::<T>(old(disp).room()),
                nk == kp.len(),
                orig == old(a)@,
                all_accepted(o, a@),
                !known_sorted(o, orig),
            decreases
                if nd + need > disp.room() {
                    nd + need - disp.room()
                } else {
                    0
                },
        {
            if !disp.grow(mem, hooks) {
                return (Scan { complete: false, nk, scanned: i }, Ghost(kp));
            }
        }
        if pops == 0 {
            proof {
                lemma_pull(orig, kp, a@, disp@, i as int, Disp { elem: it, pos: i as u32, rank: nk as u32 });
                assert forall|le: spec_fn(T, T) -> bool| #[trigger] o.follows(le) implies few_displaced(le, orig) == scan_ends(le, orig, kp, nk_max as int, i + 1) by {
                    reveal(scan_ends);
                }
            }
            disp.set(nd, it, i as u32, nk as u32);
            note_displaced(disp, nd, hooks);
            i += 1;
            proof {
                if tells_order(o) {
                    assert(scan_next::<T, O, H>(o, le0, orig, top0, st) == Some((top0, standing::<T, H>(kp, disp@, i as int, hooks.tally(), disp.room(), books(*mem)))));
                }
            }
            continue;
        }
        let ghost before = nk_max as int;
        if nk > nk_max {
            nk_max = nk;
        }
        if nk_max > RING && nk - pops < nk_max - RING {
            proof {
                assert forall|le: spec_fn(T, T) -> bool| #[trigger] o.follows(le) implies !few_displaced(le, orig) by {
                    reveal(scan_ends);
                    assert(few_displaced(le, orig) == scan_ends(le, orig, kp, before, i as int));
                }
            }
            return (Scan { complete: false, nk, scanned: i }, Ghost(kp));
        }
        let mut j: usize = 0;
        let nk0: usize = nk;
        let ghost kp0 = kp;
        proof {
            assert forall|le: spec_fn(T, T) -> bool| #[trigger] o.follows(le) implies few_displaced(le, orig) == scan_ends(le, orig, kp0.take(nk0 - pops).push(i as int), nk_max as int, i + 1) by {
                reveal(scan_ends);
                assert(few_displaced(le, orig) == scan_ends(le, orig, kp, before, i as int));
            }
        }
        while j < pops
            invariant
                keeps_record(*old(hooks), *hooks),
                hooks.tally() == popped_tally::<H>(looked, j as int),
                disp@ == popped(orig, kp0, st.items, j as int),
                disp.room() == grown.0,
                books(*mem) == grown.1,
                j <= pops <= nk0 <= n,
                pops <= 4,
                nk == nk0 - j,
                nk == kp.len(),
                nk0 == kp0.len(),
                kp == kp0.take(nk as int),
                i < n,
                n == a@.len(),
                n <= 0xFFFF_FFFF,
                nk0 <= nk_max <= n,
                nk_max <= (nk0 - pops) + RING,
                nd + pops <= disp.room(),
                disp_space::<T>(disp.room()) <= mem.held(),
                mem.held() - disp_space::<T>(disp.room()) == old(mem).held() - disp_space::<T>(old(disp).room()),
                disp.wf(),
                disp@.len() == nd + j,
                pulled_apart(orig, kp, a@, disp@, i as int),
                ranked(kp, disp@),
                ring_holds(ring@, kp, nk_max as int),
                in_order(o, a@.take(nk as int)),
            decreases pops - j,
        {
            nk -= 1;
            let e: T = a[nk];
            let p: u32 = ring[nk % RING];
            proof {
                assert(ring@[nk as int % (RING as int)] == kp[nk as int]);
                lemma_pop(orig, kp, a@, disp@, i as int, Disp { elem: e, pos: p, rank: nk as u32 });
                assert(a@.take(nk as int) =~= a@.take(nk + 1).take(nk as int));
                assert(kp.drop_last() =~= kp0.take(nk as int));
                kp = kp.drop_last();
            }
            disp.set(nd + j, e, p, nk as u32);
            assert(kp0[kp0.len() - (j + 1)] == p as int);
            hooks.on_read(&*a, nk);
            note_displaced(disp, nd + j, hooks);
            j += 1;
        }
        proof {
            lemma_ring_push(ring@, kp, nk_max as int, i as u32, ring@.update(nk as int % (RING as int), i as u32));
            lemma_keep(orig, kp, a@, disp@, i as int);
            assert forall|le: spec_fn(T, T) -> bool| #[trigger] o.follows(le) implies sorted(le, a@.update(nk as int, it).take(nk + 1)) by {
                o.follows_total(le);
                lemma_sorted_take_push(le, a@, nk as int, it);
            }
            kp = kp.push(i as int);
        }
        ring[nk % RING] = i as u32;
        a[nk] = it;
        hooks.on_write(&*a, nk);
        nk += 1;
        if nk >= 2 {
            hooks.on_read(&*a, nk - 2);
        }
        i += 1;
        proof {
            if tells_order(o) {
                assert(scan_next::<T, O, H>(o, le0, orig, top0, st) == Some((nk_max as int, standing::<T, H>(kp, disp@, i as int, hooks.tally(), disp.room(), books(*mem)))));
            }
        }
    }
    proof {
        assert forall|le: spec_fn(T, T) -> bool| #[trigger] o.follows(le) implies few_displaced(le, orig) by {
            reveal(scan_ends);
        }
        reveal(scan_end);
    }
    (Scan { complete: true, nk, scanned: n }, Ghost(kp))
}

/// Replaces every rank by the least rank from there on.
fn settle_ranks<T: Copy>(disp: &mut DispBuf<T>)
    requires
        old(disp).wf(),
    ensures
        final(disp).wf(),
        final(disp)@.len() == old(disp)@.len(),
        final(disp).room() == old(disp).room(),
        forall|t: int|
            0 <= t < old(disp)@.len() ==> (#[trigger] final(disp)@[t]).elem == old(disp)@[t].elem && final(disp)@[t].pos == old(disp)@[t].pos && final(disp)@[t].rank as int == least_rank(
                old(disp)@,
                t,
            ),
{
    let ghost d = disp@;
    let mut t: usize = disp.rank.len();
    let mut least: u32 = 0;
    while t > 0
        invariant
            t <= d.len(),
            d == old(disp)@,
            disp.wf(),
            disp@.len() == d.len(),
            disp.room() == old(disp).room(),
            forall|u: int| 0 <= u < t ==> disp@[u] == d[u],
            t < d.len() ==> least == least_rank(d, t as int),
            forall|u: int| t <= u < d.len() ==> (#[trigger] disp@[u]).elem == d[u].elem && disp@[u].pos == d[u].pos && disp@[u].rank as int == least_rank(d, u),
        decreases t,
    {
        let last = t == disp.rank.len();
        t -= 1;
        let ghost held = disp@;
        assert(held[t as int] == d[t as int]);
        let x: u32 = disp.rank[t];
        if last || x < least {
            least = x;
        }
        disp.rank[t] = least;
        assert(disp@ =~= held.update(t as int, Disp { elem: d[t as int].elem, pos: d[t as int].pos, rank: least }));
    }
}

/// The numbers `0..n`, or an error where the memory is not there.
pub fn numbers<M: Alloc>(n: usize, mem: &mut M) -> (r: Result<Vec<u32>, AllocError>)
    requires
        n <= 0xFFFF_FFFF,
    ensures
        r matches Ok(v) ==> v@ == Seq::new(n as nat, |i: int| i as u32) && final(mem).refusals() == old(mem).refusals(),
        r is Ok ==> final(mem).held() == old(mem).held() + space::<u32>(n as nat),
        r is Err ==> final(mem).refusals() == old(mem).refusals() + 1 && final(mem).held() == old(mem).held(),
{
    let mut v: Vec<u32> = match alloc_array(mem, n) {
        Ok(v) => v,
        Err(e) => {
            return Err(e);
        },
    };
    while v.len() < n
        invariant
            v@.len() <= n <= 0xFFFF_FFFF,
            forall|i: int| 0 <= i < v@.len() ==> v@[i] == i as u32,
        decreases n - v@.len(),
    {
        let x: u32 = v.len() as u32;
        v.push(x);
    }
    assert(v@ =~= Seq::new(n as nat, |i: int| i as u32));
    Ok(v)
}

/// An index array of two halves, with the numbers `0..n` in the first one, or
/// an error where the memory is not there.
fn index_halves<M: Alloc, H: Hooks>(n: usize, mem: &mut M, hooks: &mut H) -> (r: Result<Vec<u32>, AllocError>)
    requires
        2 * n <= 0xFFFF_FFFF,
    ensures
        keeps_record(*old(hooks), *final(hooks)),
        r matches Ok(v) ==> v@.len() == 2 * n && v@.take(n as int) == Seq::new(n as nat, |i: int| i as u32) && final(mem).refusals() == old(mem).refusals(),
        r is Ok ==> final(mem).held() == old(mem).held() + space::<u32>((2 * n) as nat),
        r is Ok ==> books(*final(mem)) == taken::<u32>(books(*old(mem)), (2 * n) as nat),
        r is Ok ==> final(hooks).tally() == after_times::<H>(old(hooks).tally(), Note::Write, n as int),
        r is Err ==> final(mem).refusals() == old(mem).refusals() + 1 && final(mem).held() == old(mem).held(),
{
    let mut v: Vec<u32> = match take_array(mem, 2 * n, hooks) {
        Ok(v) => v,
        Err(e) => {
            return Err(e);
        },
    };
    while v.len() < 2 * n
        invariant
            v@.len() <= 2 * n <= 0xFFFF_FFFF,
            forall|i: int| 0 <= i < v@.len() ==> v@[i] == i as u32,
        decreases 2 * n - v@.len(),
    {
        let x: u32 = v.len() as u32;
        v.push(x);
    }
    note_writes(&v, 0, n, hooks);
    assert(v@.take(n as int) =~= Seq::new(n as nat, |i: int| i as u32));
    Ok(v)
}

/// The record of the backward merge of the first `ik` kept and the first `id`
/// displaced elements.
pub open spec fn back_tally<T, O: Less<T>, H: Hooks>(o: &O, le: spec_fn(T, T) -> bool, t: H::Tally, s: Seq<T>, kp: Seq<int>, d: Seq<Disp<T>>, idx: Seq<u32>, ik: int, id: int) -> H::Tally
    decreases
        (if ik > 0 {
            ik
        } else {
            0
        }) + (if id > 0 {
            id
        } else {
            0
        }),
{
    if id <= 0 {
        t
    } else {
        let x = d[idx[id - 1] as int];
        let ek = s[kp[ik - 1]];
        let first = !le(ek, x.elem);
        let second = !le(x.elem, ek);
        let asked = if ik > 0 {
            told::<H>(t, o.notes(x.elem, ek, first))
        } else {
            t
        };
        let again = if ik > 0 && !first {
            told::<H>(asked, o.notes(ek, x.elem, second))
        } else {
            asked
        };
        let ranked = if ik > 0 && !first && !second {
            H::after(again, table_note(1, 4, true, false))
        } else {
            again
        };
        let put = H::after(ranked, Note::Write);
        if ik > 0 && (first || (!second && ik - 1 >= x.rank)) {
            let next = if ik - 1 > 0 {
                H::after(put, Note::Read)
            } else {
                put
            };
            back_tally::<T, O, H>(o, le, next, s, kp, d, idx, ik - 1, id)
        } else {
            let next = if id - 1 > 0 {
                H::after(H::after(put, Note::Read), Note::Read)
            } else {
                put
            };
            back_tally::<T, O, H>(o, le, next, s, kp, d, idx, ik, id - 1)
        }
    }
}

/// The record of the backward merge: the last of either are read first.
pub open spec fn merged_tally<T, O: Less<T>, H: Hooks>(o: &O, le: spec_fn(T, T) -> bool, t: H::Tally, s: Seq<T>, kp: Seq<int>, d: Seq<Disp<T>>, idx: Seq<u32>) -> H::Tally {
    let two = if d.len() > 0 {
        H::after(H::after(t, Note::Read), Note::Read)
    } else {
        t
    };
    let seen = if d.len() > 0 && kp.len() > 0 {
        H::after(two, Note::Read)
    } else {
        two
    };
    back_tally::<T, O, H>(o, le, seen, s, kp, d, idx, kp.len() as int, d.len() as int)
}

/// Backward merge of the kept elements in front of `a` and the displaced ones
/// in the order `idx` into the whole of `a`.
///
/// The write position never overtakes the unread kept elements. On equal keys
/// the kept element goes after the displaced one iff it is not among the
/// `rank` kept elements that precede it in the input.
#[verifier::rlimit(60)]
fn merge_displaced<T: Copy, O: Less<T>, H: Hooks>(a: &mut [T], nk: usize, disp: &DispBuf<T>, idx: &[u32], o: &O, hooks: &mut H, Ghost(orig): Ghost<Seq<T>>, Ghost(kp): Ghost<Seq<int>>)
    requires
        disp.wf(),
        nk == kp.len(),
        pulled_apart(orig, kp, old(a)@, disp@, orig.len() as int),
        forall|t: int|
            0 <= t < disp@.len() ==> forall|j: int| 0 <= j < kp.len() ==> (#[trigger] kp[j] < (#[trigger] disp@[t]).pos <==> j < disp@[t].rank),
        idx@.len() == disp@.len(),
        permutation(Seq::new(disp@.len(), |i: int| i as u32), idx@),
        all_accepted(o, orig),
        orig.len() <= 0xFFFF_FFFF,
        forall|le: spec_fn(T, T) -> bool| #[trigger] o.follows(le) ==> sorted(position_le(le, orig), kp) && sorted(position_le(le, orig), idx@.map_values(|t: u32| disp@[t as int].pos as int)),
    ensures
        keeps_record(*old(hooks), *final(hooks)),
        sorted_by(o, orig, final(a)@),
        forall|le: spec_fn(T, T) -> bool| #[trigger] o.follows(le) && o.tells() ==> final(hooks).tally() == merged_tally::<T, O, H>(o, le, old(hooks).tally(), orig, kp, disp@, idx@),
{
    let n: usize = a.len();
    let ghost d = disp@;
    let ghost f = |t: u32| d[t as int].pos as int;
    let ghost ds = idx@.map_values(f);
    let ghost mut tail: Seq<int> = Seq::empty();
    let mut ik: usize = nk;
    let mut id: usize = idx.len();
    proof {
        let ids = Seq::new(d.len(), |i: int| i as u32);
        lemma_map_permutation(ids, idx@, f);
        assert(ids.map_values(f) =~= places(d));
        lemma_permutation_add(kp, places(d), kp, ds);
        lemma_positions_distinct(n as nat, kp + places(d));
        assert forall|k: int| 0 <= k < idx@.len() implies (#[trigger] idx@[k] as int) < d.len() by {
            let i = lemma_permutation_member(idx@, ids, k);
        }
        assert forall|j: int, t: int| 0 <= j < kp.len() && 0 <= t < d.len() implies #[trigger] kp[j] != (#[trigger] d[t]).pos as int by {
            assert((kp + places(d))[j] == kp[j]);
            assert((kp + places(d))[kp.len() + t] == d[t].pos as int);
        }
        assert(kp.take(nk as int) =~= kp);
        assert(ds.take(id as int) =~= ds);
        assert((kp + ds) + tail =~= kp + ds);
        assert forall|le: spec_fn(T, T) -> bool| #[trigger] o.follows(le) implies merged_back(position_le(le, orig), kp.take(nk as int), ds.take(id as int)) + tail == merged_back(position_le(le, orig), kp, ds) by {
            assert(merged_back(position_le(le, orig), kp, ds) + tail =~= merged_back(position_le(le, orig), kp, ds));
        }
    }
    if id > 0 {
        hooks.on_read(idx, id - 1);
        hooks.on_read(disp.elem.as_slice(), idx[id - 1] as usize);
        if ik > 0 {
            hooks.on_read(&*a, ik - 1);
        }
    }
    while id > 0
        invariant
            keeps_record(*old(hooks), *hooks),
            ik <= nk == kp.len(),
            id <= idx@.len() == d.len() == ds.len(),
            n == a@.len() == orig.len(),
            kp.len() + d.len() == n,
            tail.len() == n - ik - id,
            d == disp@,
            disp.wf(),
            f == (|t: u32| d[t as int].pos as int),
            ds == idx@.map_values(f),
            all_accepted(o, orig),
            forall|k: int| 0 <= k < idx@.len() ==> (#[trigger] idx@[k] as int) < d.len(),
            forall|t: int| 0 <= t < d.len() ==> (#[trigger] d[t]).pos < n && d[t].elem == orig[d[t].pos as int],
            forall|t: int|
                0 <= t < d.len() ==> forall|j: int| 0 <= j < kp.len() ==> (#[trigger] kp[j] < (#[trigger] d[t]).pos <==> j < d[t].rank),
            forall|j: int, t: int| 0 <= j < kp.len() && 0 <= t < d.len() ==> #[trigger] kp[j] != (#[trigger] d[t]).pos as int,
            forall|j: int| 0 <= j < kp.len() ==> 0 <= #[trigger] kp[j] < n,
            forall|j: int| 0 <= j < ik ==> a@[j] == orig[#[trigger] kp[j]],
            forall|k: int| 0 <= k < tail.len() ==> a@[ik + id + k] == orig[#[trigger] tail[k]],
            permutation(iota(n as nat), (kp.take(ik as int) + ds.take(id as int)) + tail),
            forall|le: spec_fn(T, T) -> bool|
                #[trigger] o.follows(le) ==> merged_back(position_le(le, orig), kp.take(ik as int), ds.take(id as int)) + tail == merged_back(position_le(le, orig), kp, ds),
            forall|le: spec_fn(T, T) -> bool| #[trigger]
                o.follows(le) && o.tells() ==> merged_tally::<T, O, H>(o, le, old(hooks).tally(), orig, kp, d, idx@) == back_tally::<T, O, H>(
                    o,
                    le,
                    hooks.tally(),
                    orig,
                    kp,
                    d,
                    idx@,
                    ik as int,
                    id as int,
                ),
        decreases ik + id,
    {
        let t: u32 = idx[id - 1];
        let ed: T = disp.elem(t as usize);
        let ghost x = kp.take(ik as int);
        let ghost y = ds.take(id as int);
        let ghost q = d[t as int].pos as int;
        assert(ds[id - 1] == f(idx@[id - 1]));
        assert(y.last() == q);
        assert(ed == orig[q]);
        let mut take_kept = false;
        if ik > 0 {
            let ek: T = a[ik - 1];
            assert(ek == orig[kp[ik - 1]]);
            proof {
                assert forall|le: spec_fn(T, T) -> bool| #[trigger] o.follows(le) implies le(ek, ed) || le(ed, ek) by {
                    o.follows_total(le);
                }
            }
            assert(x.last() == kp[ik - 1]);
            if o.less_seen(ed, ek, hooks) {
                take_kept = true;
            } else if o.less_seen(ek, ed, hooks) {
                take_kept = false;
            } else {
                take_kept = ik - 1 >= disp.rank(t as usize) as usize;
                hooks.on_table(disp.rank.as_slice(), t as usize, 4, true, false);
            }
            proof {
                assert forall|le: spec_fn(T, T) -> bool| #[trigger] o.follows(le) implies take_kept == !position_le(le, orig)(kp[ik - 1], q) by {
                    o.follows_total(le);
                    assert(le(ek, ed) || le(ed, ek));
                }
            }
            if take_kept {
                a[ik + id - 1] = ek;
                proof {
                    let v = kp[ik - 1];
                    let xl = kp.take(ik - 1);
                    assert(x =~= xl + seq![v]);
                    assert(x.drop_last() =~= xl);
                    let fresh = seq![v] + tail;
                    lemma_permutation_swap(seq![v], y);
                    lemma_permutation_add(xl, seq![v] + y, xl, y + seq![v]);
                    lemma_permutation_add(xl + (seq![v] + y), tail, xl + (y + seq![v]), tail);
                    assert((xl + (seq![v] + y)) + tail =~= (x + y) + tail);
                    assert((xl + (y + seq![v])) + tail =~= (xl + y) + fresh);
                    assert forall|le: spec_fn(T, T) -> bool| #[trigger] o.follows(le) implies merged_back(position_le(le, orig), xl, y) + fresh == merged_back(position_le(le, orig), kp, ds) by {
                        let ple = position_le(le, orig);
                        assert(merged_back(ple, x, y) == merged_back(ple, xl, y).push(v));
                        assert(merged_back(ple, x, y) + tail =~= merged_back(ple, xl, y) + fresh);
                    }
                    assert forall|k: int| 0 <= k < fresh.len() implies a@[ik - 1 + id + k] == orig[#[trigger] fresh[k]] by {
                        if k > 0 {
                            assert(fresh[k] == tail[k - 1]);
                        }
                    }
                    tail = fresh;
                }
                hooks.on_write(&*a, ik + id - 1);
                ik -= 1;
                if ik > 0 {
                    hooks.on_read(&*a, ik - 1);
                }
            }
        }
        if !take_kept {
            a[ik + id - 1] = ed;
            proof {
                let yl = ds.take(id - 1);
                assert(y =~= yl + seq![q]);
                assert(y.drop_last() =~= yl);
                let fresh = seq![q] + tail;
                assert((x + yl) + fresh =~= (x + y) + tail);
                assert forall|le: spec_fn(T, T) -> bool| #[trigger] o.follows(le) implies merged_back(position_le(le, orig), x, yl) + fresh == merged_back(position_le(le, orig), kp, ds) by {
                    let ple = position_le(le, orig);
                    if x.len() == 0 {
                        assert(merged_back(ple, x, yl) =~= yl);
                        assert(merged_back(ple, x, y) =~= y);
                    }
                    assert(merged_back(ple, x, y) =~= merged_back(ple, x, yl).push(q));
                    assert(merged_back(ple, x, y) + tail =~= merged_back(ple, x, yl) + fresh);
                }
                assert forall|k: int| 0 <= k < fresh.len() implies a@[ik + id - 1 + k] == orig[#[trigger] fresh[k]] by {
                    if k > 0 {
                        assert(fresh[k] == tail[k - 1]);
                    }
                }
                tail = fresh;
            }
            hooks.on_write(&*a, ik + id - 1);
            id -= 1;
            if id > 0 {
                hooks.on_read(idx, id - 1);
                hooks.on_read(disp.elem.as_slice(), idx[id - 1] as usize);
            }
        }
    }
    proof {
        let x = kp.take(ik as int);
        let ix = x + tail;
        assert((x + ds.take(0)) + tail =~= ix);
        assert(a@ =~= picked(orig, ix)) by {
            assert forall|k: int| 0 <= k < n implies a@[k] == orig[ix[k]] by {
                if k < ik {
                    assert(ix[k] == kp[k]);
                } else {
                    assert(ix[k] == tail[k - ik]);
                }
            }
        }
        lemma_picked_iota(orig);
        lemma_picked_permutation(orig, iota(n as nat), ix);
        assert forall|le: spec_fn(T, T) -> bool| #[trigger] o.follows(le) implies stable_sort_of(le, orig, a@) by {
            let ple = position_le(le, orig);
            o.follows_total(le);
            assert(merged_back(ple, x, ds.take(0)) =~= x);
            assert(merged_back(ple, kp, ds) == ix);
            lemma_position_le_total(le, orig);
            lemma_merged_back(ple, kp, ds);
            lemma_picked_sort(le, orig, ix);
        }
    }
}

/// The displaced elements with the least rank from each on.
pub open spec fn settled_items<T>(items: Seq<Disp<T>>) -> Seq<Disp<T>> {
    Seq::new(items.len(), |t: int| Disp { elem: items[t].elem, pos: items[t].pos, rank: least_rank(items, t) as u32 })
}

/// The numbers `0..n`.
pub open spec fn first_numbers(n: nat) -> Seq<u32> {
    Seq::new(n, |i: int| i as u32)
}

/// The room for displaced elements that a scan of `n` elements starts with.
pub open spec fn first_room(n: nat) -> nat {
    if n / 8 < 255 {
        n / 8 + 1
    } else {
        256
    }
}

/// Where the route leads from the record `t` and the books `b`: whether it sorts,
/// and the record and the books then.
#[verifier::opaque]
pub open spec fn displaced_end<T, O: Less<T>, H: Hooks>(o: &O, le: spec_fn(T, T) -> bool, t: H::Tally, b: Books, s: Seq<T>) -> (bool, H::Tally, Books) {
    let sc = scan_end::<T, O, H>(o, le, s, 0, scan_start(t, first_room(s.len()), disp_taken::<T>(b, first_room(s.len()))));
    if !sc.complete {
        (false, after_copies::<H>(sc.tally, sc.scanned), disp_given::<T>(sc.books, sc.room))
    } else {
        let d = settled_items(sc.items);
        let nd = d.len();
        let listed = after_times::<H>(sc.tally, Note::Write, nd as int);
        let idx = stably(disp_le(d, le), first_numbers(nd));
        let ordered = upward_tally::<u32, H>(disp_notes(o, le, d), disp_le(d, le), listed, first_numbers(nd), 1);
        let done = merged_tally::<T, O, H>(o, le, ordered, s, sc.kp, d, idx);
        (true, done, given::<u32>(disp_given::<T>(taken::<u32>(sc.books, nd * 2), sc.room), nd * 2))
    }
}

/// The displaced-element route. Returns `Ok(true)` with the array sorted, or
/// `Ok(false)` or an error with the array in its input order: `Ok(false)` if
/// too many elements turn out to be displaced, an error if there is no memory
/// to begin with.
///
/// Stability without storing every kept position: for a displaced element let
/// its rank be the number of kept elements that precede it in the input.
/// Recording the kept-stack height at the moment the element was pulled out
/// and taking the least height over later pull-outs gives exactly that number,
/// because the stack only ever loses elements from the top.
#[verifier::rlimit(40)]
pub fn sort_displaced<T: Copy, O: Less<T>, M: Alloc, H: Hooks>(a: &mut [T], o: &O, mem: &mut M, hooks: &mut H) -> (r: Result<bool, AllocError>)
    requires
        old(a)@.len() <= 0xFFFF_FFFF,
        all_accepted(o, old(a)@),
    ensures
        keeps_record(*old(hooks), *final(hooks)),
        r == Ok::<bool, AllocError>(true) ==> sorted_by(o, old(a)@, final(a)@),
        r != Ok::<bool, AllocError>(true) ==> final(a)@ == old(a)@,
        known_sorted(o, old(a)@) ==> r == Ok::<bool, AllocError>(true) || final(mem).refusals() > old(mem).refusals(),
        r == Ok::<bool, AllocError>(true) ==> final(mem).refusals() == old(mem).refusals(),
        forall|le: spec_fn(T, T) -> bool| #[trigger] o.follows(le) && r == Ok::<bool, AllocError>(true) ==> few_displaced(le, old(a)@),
        forall|le: spec_fn(T, T) -> bool|
            #[trigger] o.follows(le) && r == Ok::<bool, AllocError>(false) && final(mem).refusals() == old(mem).refusals() ==> !few_displaced(le, old(a)@),
        tells_order(o) && final(mem).refusals() == old(mem).refusals() ==> displaced_end::<T, O, H>(o, order_of(o), old(hooks).tally(), books(*old(mem)), old(a)@) == (
            r == Ok::<bool, AllocError>(true),
            final(hooks).tally(),
            books(*final(mem)),
        ),
        r is Err ==> final(mem).refusals() > old(mem).refusals(),
        final(mem).refusals() >= old(mem).refusals(),
        final(mem).held() == old(mem).held(),
{
    let n: usize = a.len();
    let ghost orig = a@;
    let ghost le0 = order_of(o);
    proof {
        reveal(displaced_end);
    }
    let limit: usize = n / 8;
    let first: usize = if limit < 255 {
        limit + 1
    } else {
        256
    };
    let mut disp: DispBuf<T> = match DispBuf::new(first, mem, hooks) {
        Ok(d) => d,
        Err(e) => {
            return Err(e);
        },
    };
    let (scan, Ghost(kp)) = scan_displaced(a, &mut disp, o, mem, hooks);
    if !scan.complete {
        restore_displaced(a, &mut disp, scan.nk, scan.scanned, hooks, Ghost(orig), Ghost(kp));
        disp.release(mem, hooks);
        return Ok(false);
    }
    let nk: usize = scan.nk;
    let nd: usize = n - nk;
    let ghost raw = disp@;
    settle_ranks(&mut disp);
    proof {
        assert(disp@ =~= settled_items(raw));
        assert(places(disp@) =~= places(raw));
        assert forall|t: int| 0 <= t < disp@.len() implies (forall|j: int| 0 <= j < kp.len() ==> (#[trigger] kp[j] < (#[trigger] disp@[t]).pos <==> j < disp@[t].rank)) by {
            assert(least_rank(raw, t) <= kp.len());
        }
        assert forall|le: spec_fn(T, T) -> bool| #[trigger] o.follows(le) implies sorted(position_le(le, orig), kp) by {
            let ple = position_le(le, orig);
            o.follows_total(le);
            assert forall|i: int, j: int| 0 <= i <= j < kp.len() implies ple(#[trigger] kp[i], #[trigger] kp[j]) by {
                assert(le(a@.take(nk as int)[i], a@.take(nk as int)[j]));
            }
        }
    }
    let mut halves: Vec<u32> = match index_halves(nd, mem, hooks) {
        Ok(v) => v,
        Err(_) => {
            restore_displaced(a, &mut disp, nk, n, hooks, Ghost(orig), Ghost(kp));
            disp.release(mem, hooks);
            return Ok(false);
        },
    };
    let ghost ids = halves@.take(nd as int);
    let (idx, spare) = halves.as_mut_slice().split_at_mut(nd);
    let order = DispOrder { disp: &disp, o };
    proof {
        assert(idx@ =~= ids);
        assert(ids == first_numbers(nd as nat));
        assert forall|t: int| 0 <= t < idx@.len() implies order.accepts(#[trigger] idx@[t]) by {
            assert(o.accepts(orig[disp@[t].pos as int]));
        }
    }
    merge_up(idx, spare, &order, hooks);
    proof {
        if tells_order(o) {
            assert(o.follows(le0));
            o.follows_total(le0);
            lemma_disp_le_total(disp@, le0);
            let me = disp_le(disp@, le0);
            assert(order.o.follows(le0) && me == disp_le(order.disp@, le0));
            assert(order.follows(me));
            assert(order.tells());
            assert(notes_of(&order) =~= disp_notes(o, le0, disp@));
            lemma_stably(me, ids, idx@);
        }
        assert forall|le: spec_fn(T, T) -> bool| #[trigger] o.follows(le) implies sorted(position_le(le, orig), idx@.map_values(|t: u32| disp@[t as int].pos as int)) by {
            let d = disp@;
            let me = disp_le(d, le);
            assert(order.o.follows(le) && me == disp_le(order.disp@, le));
            assert(order.follows(me));
            let ds = idx@.map_values(|t: u32| d[t as int].pos as int);
            let ple = position_le(le, orig);
            assert forall|i: int, j: int| 0 <= i <= j < ds.len() implies ple(#[trigger] ds[i], #[trigger] ds[j]) by {
                let k = lemma_permutation_member(idx@, ids, i);
                let l = lemma_permutation_member(idx@, ids, j);
                assert(me(idx@[i], idx@[j]));
            }
        }
        lemma_permutation_len(ids, idx@);
    }
    merge_displaced(a, nk, &disp, &*idx, o, hooks, Ghost(orig), Ghost(kp));
    disp.release(mem, hooks);
    give_array(mem, halves, 2 * nd, hooks);
    Ok(true)
}

} // verus!
