//! The deterministic numbers of the sorts: a comparison sort shows its
//! comparisons through the comparator it is given, a key sort its key reads
//! through its key function, and every sort its scratch memory through the
//! allocator. One row per key type, input, algorithm and size.
use crate::algorithm::at_ease;
use crate::algorithm::scout::descent;
use crate::bench::{
    copied, make_reference, order_hash, order_hash_to, sort_fault, verify_sorted, Fault, Item2,
};
use crate::bench::counted::{counted_run, run_of, shown, DetRecord, RunError};
use crate::bench::datasets::{dataset_applies, ElementType, Pattern};
use crate::bench::render::{decimal, decimal_of, hex16, hex_of, push_decimal, push_hex};
use crate::bench::watch::{AllocStats, Counters};
use crate::order::{lemma_permutation_len, stable_sort_is_unique, stable_sort_of};
use crate::view::{elem_le, lemma_elem_le_total};
use vstd::prelude::*;

verus! {

/// The sorts that are counted.
#[derive(Clone, Copy, PartialEq, Eq, Debug, Structural)]
pub enum Algorithm {
    /// This library.
    Brainsort,
    /// The standard library's stable sort.
    SliceSort,
    /// The standard library's unstable sort.
    SliceSortUnstable,
    /// The standard library's stable sort by a key that is computed once.
    SliceSortByCachedKey,
}

/// How many sorts are counted.
pub const ALGORITHMS: usize = 4;

/// The seed of the inputs.
pub const SEED: u64 = 20260912;

impl Algorithm {
    /// The place among the sorts.
    pub open spec fn place(self) -> int {
        match self {
            Algorithm::Brainsort => 0,
            Algorithm::SliceSort => 1,
            Algorithm::SliceSortUnstable => 2,
            Algorithm::SliceSortByCachedKey => 3,
        }
    }

    /// The name of the sort.
    pub open spec fn text(self) -> Seq<char> {
        match self {
            Algorithm::Brainsort => "brainsort"@,
            Algorithm::SliceSort => "slice::sort"@,
            Algorithm::SliceSortUnstable => "slice::sort_unstable"@,
            Algorithm::SliceSortByCachedKey => "slice::sort_by_cached_key"@,
        }
    }

    /// The sort keeps equal elements in order.
    pub open spec fn is_stable(self) -> bool {
        self != Algorithm::SliceSortUnstable
    }

    /// The sort at a place.
    pub fn at(i: usize) -> (r: Algorithm)
        requires
            i < ALGORITHMS,
        ensures
            r.place() == i,
    {
        match i {
            0 => Algorithm::Brainsort,
            1 => Algorithm::SliceSort,
            2 => Algorithm::SliceSortUnstable,
            _ => Algorithm::SliceSortByCachedKey,
        }
    }

    /// The name of the sort.
    pub fn name(self) -> (r: &'static str)
        ensures
            r@ == self.text(),
    {
        match self {
            Algorithm::Brainsort => "brainsort",
            Algorithm::SliceSort => "slice::sort",
            Algorithm::SliceSortUnstable => "slice::sort_unstable",
            Algorithm::SliceSortByCachedKey => "slice::sort_by_cached_key",
        }
    }

    /// Whether the sort keeps equal elements in order.
    pub fn stable(self) -> (r: bool)
        ensures
            r == self.is_stable(),
    {
        match self {
            Algorithm::SliceSortUnstable => false,
            _ => true,
        }
    }
}

// ---- the rows ------------------------------------------------------------------------------------

/// What is wrong with a row.
#[derive(Clone, Copy, Debug, PartialEq, Eq, Structural)]
pub enum RowError {
    /// The counted run went wrong.
    Run { error: RunError },
    /// The result of the sort is wrong.
    Result { fault: Fault },
    /// Memory was not given back.
    Leak { bytes: usize },
}

impl RowError {
    /// The error in words.
    pub open spec fn text(self) -> Seq<char> {
        match self {
            RowError::Run { error } => error.text(),
            RowError::Result { fault } => fault.text(),
            RowError::Leak { bytes } => "aux_memory_leak:"@ + decimal_of(bytes as nat),
        }
    }

    /// The error in words.
    pub fn message(self) -> (r: String)
        ensures
            r@ == self.text(),
    {
        match self {
            RowError::Run { error } => error.message(),
            RowError::Result { fault } => fault.message(),
            RowError::Leak { bytes } => {
                let mut s: String = String::from_str("aux_memory_leak:");
                push_decimal(&mut s, bytes as u64);
                s
            },
        }
    }
}

/// One row of the counts.
#[derive(Clone, Copy, Debug, PartialEq, Eq, Structural)]
pub struct CountRow {
    pub ty: ElementType,
    pub dataset: Pattern,
    pub algorithm: Algorithm,
    pub n: usize,
    pub seed: u64,
    pub error: Option<RowError>,
    /// Comparisons; none are counted of `Brainsort`.
    pub compares: u64,
    pub flips: u64,
    /// Calls of the key function: `None` for a sort that has none.
    pub key_reads: Option<u64>,
    pub aux_peak_bytes: usize,
    pub order_hash: u64,
}

/// A text with every comma a semicolon.
pub open spec fn without_commas(s: Seq<char>) -> Seq<char> {
    s.map_values(
        |c: char|
            if c == ',' {
                ';'
            } else {
                c
            },
    )
}

/// A flag as a digit.
pub open spec fn flag_of(b: bool) -> Seq<char> {
    decimal_of(
        if b {
            1
        } else {
            0
        },
    )
}

/// A number that may be missing.
pub open spec fn optional_of(k: Option<u64>) -> Seq<char> {
    match k {
        Some(x) => decimal_of(x as nat),
        None => Seq::empty(),
    }
}

/// The columns of a row, in order.
pub open spec fn header_text() -> Seq<char> {
    "type,dataset,algorithm,stable,n,seed,ok,error,compares,cmp_flips,key_reads,aux_peak_bytes,order_hash"@
}

impl CountRow {
    /// What the error column says.
    pub open spec fn error_text(self) -> Seq<char> {
        match self.error {
            Some(e) => e.text(),
            None => Seq::empty(),
        }
    }

    /// The row as a line.
    pub open spec fn line(self) -> Seq<char> {
        self.ty.text() + ","@ + self.dataset.text() + ","@ + self.algorithm.text() + ","@ + flag_of(self.algorithm.is_stable()) + ","@ + decimal_of(self.n as nat) + ","@ + decimal_of(
            self.seed as nat,
        ) + ","@ + flag_of(self.error is None) + ","@ + without_commas(self.error_text()) + ","@ + decimal_of(self.compares as nat) + ","@ + decimal_of(self.flips as nat) + ","@
            + optional_of(self.key_reads) + ","@ + decimal_of(self.aux_peak_bytes as nat) + ","@ + hex_of(self.order_hash as nat, 16)
    }

    /// The columns that a check compares: name and value.
    pub open spec fn checked(self) -> Seq<(Seq<char>, Seq<char>)> {
        seq![
            ("ok"@, flag_of(self.error is None)),
            ("compares"@, decimal_of(self.compares as nat)),
            ("cmp_flips"@, decimal_of(self.flips as nat)),
            ("key_reads"@, optional_of(self.key_reads)),
            ("aux_peak_bytes"@, decimal_of(self.aux_peak_bytes as nat)),
            ("order_hash"@, hex_of(self.order_hash as nat, 16)),
        ]
    }

    /// Whether the sort did what it should.
    pub fn ok(&self) -> (r: bool)
        ensures
            r == (self.error is None),
    {
        self.error.is_none()
    }

    /// The row as a line.
    pub fn csv(&self) -> (r: String)
        ensures
            r@ == self.line(),
    {
        let mut s: String = String::from_str(self.ty.name());
        s.append(",");
        s.append(self.dataset.name());
        s.append(",");
        s.append(self.algorithm.name());
        s.append(",");
        push_flag(&mut s, self.algorithm.stable());
        s.append(",");
        push_decimal(&mut s, self.n as u64);
        s.append(",");
        push_decimal(&mut s, self.seed);
        s.append(",");
        push_flag(&mut s, self.ok());
        s.append(",");
        if let Some(e) = self.error {
            push_without_commas(&mut s, e.message().as_str());
        } else {
            assert(without_commas(self.error_text()) =~= Seq::<char>::empty());
            assert(s@ + without_commas(self.error_text()) =~= s@);
        }
        s.append(",");
        push_decimal(&mut s, self.compares);
        s.append(",");
        push_decimal(&mut s, self.flips);
        s.append(",");
        if let Some(k) = self.key_reads {
            push_decimal(&mut s, k);
        } else {
            assert(s@ + optional_of(self.key_reads) =~= s@);
        }
        s.append(",");
        push_decimal(&mut s, self.aux_peak_bytes as u64);
        s.append(",");
        push_hex(&mut s, self.order_hash, 16);
        s
    }

    /// The columns that a check compares: name and value.
    pub fn fields(&self) -> (v: Vec<(&'static str, String)>)
        ensures
            shown(v@) == self.checked(),
    {
        let mut v: Vec<(&'static str, String)> = Vec::new();
        v.push(("ok", flag(self.ok())));
        v.push(("compares", decimal(self.compares)));
        v.push(("cmp_flips", decimal(self.flips)));
        v.push(
            (
                "key_reads",
                match self.key_reads {
                    Some(k) => decimal(k),
                    None => String::new(),
                },
            ),
        );
        v.push(("aux_peak_bytes", decimal(self.aux_peak_bytes as u64)));
        v.push(("order_hash", hex16(self.order_hash)));
        assert(shown(v@) =~= self.checked());
        v
    }
}

fn push_flag(s: &mut String, b: bool)
    ensures
        final(s)@ == old(s)@ + flag_of(b),
{
    push_decimal(
        s,
        if b {
            1
        } else {
            0
        },
    );
}

fn flag(b: bool) -> (r: String)
    ensures
        r@ == flag_of(b),
{
    let mut s: String = String::new();
    push_flag(&mut s, b);
    assert(s@ =~= flag_of(b));
    s
}

fn push_without_commas(s: &mut String, t: &str)
    ensures
        final(s)@ == old(s)@ + without_commas(t@),
{
    let n: usize = t.unicode_len();
    let ghost before = s@;
    let ghost all = without_commas(t@);
    let mut i: usize = 0;
    assert(s@ =~= before + all.take(0));
    while i < n
        invariant
            i <= n == t@.len(),
            all == without_commas(t@),
            s@ == before + all.take(i as int),
        decreases n - i,
    {
        let c: char = t.get_char(i);
        if c == ',' {
            s.push(';');
        } else {
            s.push(c);
        }
        i += 1;
        assert(s@ =~= before + all.take(i as int));
    }
    assert(all.take(n as int) =~= all);
}

/// The names of the columns.
pub fn csv_header() -> (r: String)
    ensures
        r@ == header_text(),
{
    String::from_str("type,dataset,algorithm,stable,n,seed,ok,error,compares,cmp_flips,key_reads,aux_peak_bytes,order_hash")
}

/// The first `n` rows as lines.
pub open spec fn lines_to(rows: Seq<CountRow>, n: int) -> Seq<char>
    decreases n,
{
    if n <= 0 {
        Seq::empty()
    } else {
        lines_to(rows, n - 1) + rows[n - 1].line() + "\n"@
    }
}

/// The rows as a file.
pub fn to_csv(rows: &Vec<CountRow>) -> (r: String)
    ensures
        r@ == header_text() + "\n"@ + lines_to(rows@, rows@.len() as int),
{
    let mut s: String = csv_header();
    s.append("\n");
    let ghost start = s@;
    let n: usize = rows.len();
    let mut i: usize = 0;
    assert(s@ =~= start + lines_to(rows@, 0));
    while i < n
        invariant
            i <= n == rows@.len(),
            s@ == start + lines_to(rows@, i as int),
        decreases n - i,
    {
        s.append(rows[i].csv().as_str());
        s.append("\n");
        i += 1;
        assert(s@ =~= start + lines_to(rows@, i as int));
    }
    s
}

// ---- one cell ------------------------------------------------------------------------------------

/// The first place from `i` on where an element goes before the one before it,
/// or the length.
pub open spec fn first_drop<T: Item2>(s: Seq<T>, i: int) -> int
    decreases s.len() - i,
{
    if i >= s.len() || descent(elem_le::<T>(), s, i) {
        i
    } else {
        first_drop(s, i + 1)
    }
}

/// The elements bear the numbers from 0 on, each once.
pub open spec fn numbers_kept<T: Item2>(s: Seq<T>) -> bool {
    &&& forall|i: int| 0 <= i < s.len() ==> (#[trigger] s[i]).number() < s.len()
    &&& forall|i: int, j: int| 0 <= i < j < s.len() ==> (#[trigger] s[i]).number() != (#[trigger] s[j]).number()
}

/// What is wrong with the output of an unstable sort, which may order equal keys
/// as it likes.
pub open spec fn order_fault<T: Item2>(out: Seq<T>, n: int) -> Option<Fault> {
    if out.len() != n {
        Some(Fault::Size)
    } else if n > 0 && first_drop(out, 1) < n {
        Some(Fault::NotSorted { index: first_drop(out, 1) as usize })
    } else if !numbers_kept(out) {
        Some(Fault::NotPermutation)
    } else {
        None
    }
}

/// Sorted by key, and the same elements as the input.
pub fn verify_permutation<T: Item2>(out: &[T], n: usize) -> (r: Result<(), Fault>)
    ensures
        r == match order_fault(out@, n as int) {
            Some(f) => Result::<(), Fault>::Err(f),
            None => Result::<(), Fault>::Ok(()),
        },
{
    if out.len() != n {
        return Err(Fault::Size);
    }
    let mut i: usize = 1;
    while i < n
        invariant
            1 <= i,
            n > 0 ==> i <= n,
            n == out@.len(),
            first_drop(out@, 1) == first_drop(out@, i as int),
        decreases n - i,
    {
        if T::less(out[i], out[i - 1]) {
            return Err(Fault::NotSorted { index: i });
        }
        i += 1;
    }
    let mut seen: Vec<bool> = Vec::with_capacity(n);
    while seen.len() < n
        invariant
            seen@.len() <= n,
            forall|k: int| 0 <= k < seen@.len() ==> !seen@[k],
        decreases n - seen@.len(),
    {
        seen.push(false);
    }
    let mut k: usize = 0;
    while k < n
        invariant
            k <= n == out@.len() == seen@.len(),
            n > 0 ==> first_drop(out@, 1) >= n,
            forall|i: int| 0 <= i < k ==> (#[trigger] out@[i]).number() < n && seen@[out@[i].number() as int],
            forall|i: int, j: int| 0 <= i < j < k ==> (#[trigger] out@[i]).number() != (#[trigger] out@[j]).number(),
            forall|x: int| 0 <= x < n && #[trigger] seen@[x] ==> exists|i: int| 0 <= i < k && (#[trigger] out@[i]).number() == x,
        decreases n - k,
    {
        let x: usize = out[k].id() as usize;
        if x >= n || seen[x] {
            proof {
                if x < n {
                    let i = choose|i: int| 0 <= i < k && (#[trigger] out@[i]).number() == x;
                    assert(out@[i].number() == out@[k as int].number());
                }
            }
            return Err(Fault::NotPermutation);
        }
        let ghost before = seen@;
        seen.set(x, true);
        k += 1;
        proof {
            assert forall|y: int| 0 <= y < n && #[trigger] seen@[y] implies exists|i: int| 0 <= i < k && (#[trigger] out@[i]).number() == y by {
                if y == x {
                    assert(out@[k - 1].number() == y);
                } else {
                    assert(before[y]);
                    let i = choose|i: int| 0 <= i < k - 1 && (#[trigger] out@[i]).number() == y;
                    assert(out@[i].number() == y);
                }
            }
        }
    }
    Ok(())
}

/// What was seen of one sort.
#[derive(Clone, Copy, Debug)]
pub struct Measured {
    /// Its comparisons and key reads.
    pub counters: Counters,
    /// Its memory.
    pub alloc: AllocStats,
}

/// What the error column of a sort says.
pub open spec fn row_error<T: Item2>(a: Algorithm, out: Seq<T>, reference: Seq<T>, leak: usize) -> Option<RowError> {
    let fault = if a.is_stable() {
        sort_fault(out, reference)
    } else {
        order_fault(out, reference.len() as int)
    };
    match fault {
        Some(f) => Some(RowError::Result { fault: f }),
        None => if leak != 0 {
            Some(RowError::Leak { bytes: leak })
        } else {
            None
        },
    }
}

/// The row of one sort, from what it left and what was seen of it.
pub open spec fn row_of<T: Item2>(dataset: Pattern, a: Algorithm, out: Seq<T>, reference: Seq<T>, m: Measured) -> CountRow {
    CountRow {
        ty: T::kind(),
        dataset,
        algorithm: a,
        n: reference.len() as usize,
        seed: SEED,
        error: row_error(a, out, reference, m.alloc.leak),
        compares: m.counters.compares,
        flips: m.counters.flips,
        key_reads: if m.counters.key_reads > 0 {
            Some(m.counters.key_reads)
        } else {
            None
        },
        aux_peak_bytes: m.alloc.peak,
        order_hash: order_hash_to(out, out.len() as int),
    }
}

/// The row of one sort, from what it left and what was seen of it.
pub fn run_one<T: Item2>(dataset: Pattern, a: Algorithm, out: &Vec<T>, reference: &Vec<T>, m: &Measured) -> (r: CountRow)
    ensures
        r == row_of(dataset, a, out@, reference@, *m),
{
    let check: Result<(), Fault> = if a.stable() {
        verify_sorted(out, reference)
    } else {
        verify_permutation(out, reference.len())
    };
    let error: Option<RowError> = match check {
        Err(fault) => Some(RowError::Result { fault }),
        Ok(_) => if m.alloc.leak != 0 {
            Some(RowError::Leak { bytes: m.alloc.leak })
        } else {
            None
        },
    };
    CountRow {
        ty: T::element_type(),
        dataset,
        algorithm: a,
        n: reference.len(),
        seed: SEED,
        error,
        compares: m.counters.compares,
        flips: m.counters.flips,
        key_reads: if m.counters.key_reads > 0 {
            Some(m.counters.key_reads)
        } else {
            None
        },
        aux_peak_bytes: m.alloc.peak,
        order_hash: order_hash(out),
    }
}

/// The row of this library's sort, from its counted run.
pub open spec fn own_row<T: Item2>(dataset: Pattern, n: usize, det: DetRecord) -> CountRow {
    CountRow {
        ty: T::kind(),
        dataset,
        algorithm: Algorithm::Brainsort,
        n,
        seed: SEED,
        error: match det.error {
            Some(error) => Some(RowError::Run { error }),
            None => None,
        },
        compares: det.counters.compares,
        flips: det.counters.flips,
        key_reads: None,
        aux_peak_bytes: det.alloc.peak,
        order_hash: det.order_hash,
    }
}

/// The row of this library's sort, from its counted run.
pub fn brainsort_row<T: Item2>(dataset: Pattern, n: usize, det: &DetRecord) -> (r: CountRow)
    ensures
        r == own_row::<T>(dataset, n, *det),
{
    CountRow {
        ty: T::element_type(),
        dataset,
        algorithm: Algorithm::Brainsort,
        n,
        seed: SEED,
        error: match det.error {
            Some(error) => Some(RowError::Run { error }),
            None => None,
        },
        compares: det.counters.compares,
        flips: det.counters.flips,
        key_reads: None,
        aux_peak_bytes: det.alloc.peak,
        order_hash: det.order_hash,
    }
}

/// The sorts of others, and how they are watched: sorts the elements with the
/// given sort, and says what was seen of it.
pub struct RustOpponents<F>(pub F);

/// The row at place `i` tells what the sort at that place left of `items`, and
/// what was reported of it.
pub open spec fn tells_of<T: Item2, F: Fn(Algorithm, Vec<T>) -> (Vec<T>, Measured)>(f: F, row: CountRow, i: int, items: Seq<T>, reference: Seq<T>, dataset: Pattern) -> bool {
    exists|a: Algorithm, given: Vec<T>, left: (Vec<T>, Measured)|
        a.place() == i && given@ == items && #[trigger] call_ensures(f, (a, given), left) && row == row_of(dataset, a, left.0@, reference, left.1)
}

/// The row tells what a counted run of `items` came to.
pub open spec fn tells_own<T: Item2>(row: CountRow, items: Seq<T>, dataset: Pattern) -> bool {
    exists|det: DetRecord, out: Seq<T>| #[trigger] run_of(items, det, out) && row == own_row::<T>(dataset, items.len() as usize, det)
}

/// Every algorithm on one cell: one row for each, in order. What the sorts of
/// others leave is held against the stable sort of the input. `pool` is where the
/// keys of the elements lie, where that is outside of them.
pub fn run_cell<T: Item2, F: Fn(Algorithm, Vec<T>) -> (Vec<T>, Measured)>(items: &Vec<T>, pool: Option<&[u8]>, dataset: Pattern, opponents: &RustOpponents<F>) -> (rows: Vec<CountRow>)
    requires
        forall|a: Algorithm, v: Vec<T>| #[trigger] call_requires(opponents.0, (a, v)),
    ensures
        rows@.len() == ALGORITHMS,
        forall|i: int| 0 <= i < ALGORITHMS ==> (#[trigger] rows@[i]).algorithm.place() == i && rows@[i].ty == T::kind() && rows@[i].dataset == dataset && rows@[i].n == items@.len() && rows@[i].seed == SEED,
        !(rows@[0].error matches Some(RowError::Result { fault })),
        !(rows@[0].error matches Some(RowError::Run { error: RunError::Result { fault } })),
        !(rows@[0].error matches Some(RowError::Run { error: RunError::Leak { bytes } })),
        rows@[0].key_reads is None,
        tells_own(rows@[0], items@, dataset),
        at_ease(items@) ==> rows@[0].error is None,
        forall|i: int, reference: Seq<T>|
            #![trigger rows@[i], stable_sort_of(elem_le::<T>(), items@, reference)]
            1 <= i < ALGORITHMS && stable_sort_of(elem_le::<T>(), items@, reference) ==> tells_of(opponents.0, rows@[i], i, items@, reference, dataset),
        forall|i: int, reference: Seq<T>|
            #![trigger rows@[i], stable_sort_of(elem_le::<T>(), items@, reference)]
            0 <= i < ALGORITHMS && stable_sort_of(elem_le::<T>(), items@, reference) && rows@[i].error is None && rows@[i].algorithm.is_stable() ==> rows@[i].order_hash == order_hash_to(
                reference,
                reference.len() as int,
            ),
        forall|i: int, j: int|
            0 <= i < ALGORITHMS && 0 <= j < ALGORITHMS && (#[trigger] rows@[i]).error is None && (#[trigger] rows@[j]).error is None && rows@[i].algorithm.is_stable()
                && rows@[j].algorithm.is_stable() ==> rows@[i].order_hash == rows@[j].order_hash,
{
    let reference: Vec<T> = make_reference(items);
    let (det, out) = counted_run(items, pool, &reference);
    let mut rows: Vec<CountRow> = Vec::new();
    proof {
        lemma_permutation_len(items@, reference@);
    }
    let ghost h = order_hash_to(reference@, reference@.len() as int);
    let first: CountRow = brainsort_row::<T>(dataset, items.len(), &det);
    proof {
        assert(items@.len() as usize == items@.len());
        assert(run_of(items@, det, out@) && first == own_row::<T>(dataset, items@.len() as usize, det));
        if first.error is None {
            lemma_same_hash(out@, reference@, reference@.len() as int);
        }
    }
    rows.push(first);
    let mut i: usize = 1;
    while i < ALGORITHMS
        invariant
            1 <= i <= ALGORITHMS,
            rows@.len() == i,
            forall|a: Algorithm, v: Vec<T>| #[trigger] call_requires(opponents.0, (a, v)),
            reference@.len() == items@.len(),
            stable_sort_of(elem_le::<T>(), items@, reference@),
            h == order_hash_to(reference@, reference@.len() as int),
            rows@[0] == first,
            forall|k: int| 0 <= k < i ==> (#[trigger] rows@[k]).algorithm.place() == k && rows@[k].ty == T::kind() && rows@[k].dataset == dataset && rows@[k].n == items@.len() && rows@[k].seed == SEED,
            forall|k: int| 0 <= k < i && (#[trigger] rows@[k]).error is None && rows@[k].algorithm.is_stable() ==> rows@[k].order_hash == h,
            forall|k: int| 1 <= k < i ==> tells_of(opponents.0, #[trigger] rows@[k], k, items@, reference@, dataset),
        decreases ALGORITHMS - i,
    {
        let a: Algorithm = Algorithm::at(i);
        let given: Vec<T> = copied(items);
        let ghost handed = given;
        let left: (Vec<T>, Measured) = (opponents.0)(a, given);
        let (work, m) = left;
        let row: CountRow = run_one(dataset, a, &work, &reference, &m);
        proof {
            assert(call_ensures(opponents.0, (a, handed), left) && row == row_of(dataset, a, work@, reference@, m));
            if row.error is None && a.is_stable() {
                lemma_same_hash(work@, reference@, reference@.len() as int);
            }
        }
        rows.push(row);
        i += 1;
    }
    proof {
        lemma_elem_le_total::<T>();
        assert forall|k: int, r: Seq<T>|
            #![trigger rows@[k], stable_sort_of(elem_le::<T>(), items@, r)]
            0 <= k < ALGORITHMS && stable_sort_of(elem_le::<T>(), items@, r) && rows@[k].error is None && rows@[k].algorithm.is_stable() implies rows@[k].order_hash == order_hash_to(
            r,
            r.len() as int,
        ) by {
            stable_sort_is_unique(elem_le::<T>(), items@, r, reference@);
        }
        assert forall|k: int, r: Seq<T>|
            #![trigger rows@[k], stable_sort_of(elem_le::<T>(), items@, r)]
            1 <= k < ALGORITHMS && stable_sort_of(elem_le::<T>(), items@, r) implies tells_of(opponents.0, rows@[k], k, items@, r, dataset) by {
            stable_sort_is_unique(elem_le::<T>(), items@, r, reference@);
        }
    }
    rows
}

/// Outputs without a fault have one hash.
proof fn lemma_same_hash<T: Item2>(out: Seq<T>, reference: Seq<T>, n: int)
    requires
        sort_fault(out, reference) is None,
        0 <= n <= reference.len(),
    ensures
        out.len() == reference.len(),
        order_hash_to(out, n) == order_hash_to(reference, n),
    decreases n,
{
    if n > 0 {
        lemma_same_hash(out, reference, n - 1);
        assert(out[n - 1].same_as(&reference[n - 1]));
        out[n - 1].same_tied(&reference[n - 1]);
    }
}

// ---- the cells -----------------------------------------------------------------------------------

/// A cell of the counts: a size, an element type and a dataset.
#[derive(Clone, Copy, Debug, PartialEq, Eq, Structural)]
pub struct Cell {
    pub n: usize,
    pub ty: ElementType,
    pub dataset: Pattern,
}

/// The element types of the counts.
pub const TYPES: usize = 4;

/// The datasets of the counts.
pub const DATASETS: usize = 12;

/// The type of this number.
pub open spec fn type_at(i: int) -> ElementType {
    if i == 0 {
        ElementType::Int32
    } else if i == 1 {
        ElementType::Double
    } else if i == 2 {
        ElementType::Int64
    } else {
        ElementType::Text
    }
}

/// The dataset is measured for the type.
pub open spec fn measured(ty: ElementType, p: Pattern) -> bool {
    p.text() != "sparse_bits"@ || ty.text() == "int32"@
}

/// The cells of the sizes before `size`, and those of `size` before the type `ty`
/// and the dataset number `d` of it: sizes first, then types, then datasets.
pub open spec fn cells_before(sizes: Seq<usize>, size: int, ty: int, d: int) -> Seq<Cell>
    decreases size, ty, d,
{
    if d > 0 {
        let s = cells_before(sizes, size, ty, d - 1);
        let p = choose|p: Pattern| #[trigger] p.place() == d - 1;
        if measured(type_at(ty), p) {
            s.push(Cell { n: sizes[size], ty: type_at(ty), dataset: p })
        } else {
            s
        }
    } else if ty > 0 {
        cells_before(sizes, size, ty - 1, DATASETS as int)
    } else if size > 0 {
        cells_before(sizes, size - 1, TYPES as int, 0)
    } else {
        Seq::empty()
    }
}

fn type_of(i: usize) -> (r: ElementType)
    requires
        i < TYPES,
    ensures
        r == type_at(i as int),
{
    match i {
        0 => ElementType::Int32,
        1 => ElementType::Double,
        2 => ElementType::Int64,
        _ => ElementType::Text,
    }
}

/// Every cell of the counts at these sizes, in order.
pub fn matrix(sizes: &Vec<usize>) -> (v: Vec<Cell>)
    ensures
        v@ == cells_before(sizes@, sizes@.len() as int, 0, 0),
{
    let mut v: Vec<Cell> = Vec::new();
    let mut i: usize = 0;
    while i < sizes.len()
        invariant
            i <= sizes@.len(),
            v@ == cells_before(sizes@, i as int, 0, 0),
        decreases sizes@.len() - i,
    {
        let mut t: usize = 0;
        while t < TYPES
            invariant
                i < sizes@.len(),
                t <= TYPES,
                v@ == cells_before(sizes@, i as int, t as int, 0),
            decreases TYPES - t,
        {
            let ty: ElementType = type_of(t);
            let mut d: usize = 0;
            while d < DATASETS
                invariant
                    i < sizes@.len(),
                    t < TYPES,
                    d <= DATASETS,
                    ty == type_at(t as int),
                    v@ == cells_before(sizes@, i as int, t as int, d as int),
                decreases DATASETS - d,
            {
                let p: Pattern = Pattern::at(d);
                proof {
                    let q = choose|q: Pattern| #[trigger] q.place() == d;
                    assert(p.place() == d && q == p);
                }
                if dataset_applies(p.name(), ty.name()) {
                    v.push(Cell { n: sizes[i], ty, dataset: p });
                }
                d += 1;
            }
            t += 1;
        }
        i += 1;
    }
    v
}

} // verus!
