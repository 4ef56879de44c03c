//! What the files and the stamps of the measurements promise, said of their lines and
//! fields.
use crate::bench::{order_hash_to, Fault, Item2};
use crate::bench::check::{
    self, answer_from, answers_to, checked_columns, differing, drifted_to, failure_of, failures_to,
    field_from, file_rows, golden_of, golden_rows, picked_fields, rows_to, run_columns, run_from,
    unshared, within, FileError, GoldenText, RowText,
};
use crate::bench::counted::{route_text, run_error, DetRecord, RunError};
use crate::bench::counts::{
    self, first_drop, flag_of, lines_to, optional_of, order_fault, own_row, row_error,
    without_commas, Algorithm, CountRow, Measured, RowError,
};
use crate::bench::csv::{column_from, number_of};
use crate::bench::datasets::Pattern;
use crate::bench::laws::{
    columns_are_found_by_name, faults_name_the_first_difference, numbers_are_read_back,
};
use crate::bench::machine::{
    is_separator, is_space, line_end, model_at, trim_back, trim_front, value_of,
};
use crate::bench::opponents::{Opponents, RadixCrate, Row};
use crate::bench::render::decimal_of;
use crate::bench::timing::{path_le, stamp_of, SourceFile, REFERENCE_N};
use crate::key::laws::byte_vector_in_order;
use crate::text::bytes_le;
use crate::view::elem_le;
use vstd::prelude::*;

verus! {

// ---- the machine ---------------------------------------------------------------------------------

/// Trimming in front leaves out the first characters of a kind, up to the first that
/// is not of it.
pub proof fn trimming_in_front(s: Seq<char>, p: spec_fn(char) -> bool) -> (k: int)
    ensures
        0 <= k <= s.len(),
        trim_front(s, p) == s.skip(k),
        forall|i: int| 0 <= i < k ==> p(#[trigger] s[i]),
        k < s.len() ==> !p(s[k]),
    decreases s.len(),
{
    if s.len() > 0 && p(s[0]) {
        let j = trimming_in_front(s.skip(1), p);
        assert(s.skip(1).skip(j) =~= s.skip(j + 1));
        assert forall|i: int| 0 <= i < j + 1 implies p(#[trigger] s[i]) by {
            if i > 0 {
                assert(s.skip(1)[i - 1] == s[i]);
            }
        }
        if j + 1 < s.len() {
            assert(s.skip(1)[j] == s[j + 1]);
        }
        j + 1
    } else {
        assert(s.skip(0) =~= s);
        0
    }
}

/// Trimming at the end leaves out the last characters of a kind, down to the last
/// that is not of it.
pub proof fn trimming_at_the_end(s: Seq<char>, p: spec_fn(char) -> bool) -> (k: int)
    ensures
        0 <= k <= s.len(),
        trim_back(s, p) == s.take(k),
        forall|i: int| k <= i < s.len() ==> p(#[trigger] s[i]),
        k > 0 ==> !p(s[k - 1]),
    decreases s.len(),
{
    if s.len() > 0 && p(s.last()) {
        let k = trimming_at_the_end(s.drop_last(), p);
        assert(s.drop_last().take(k) =~= s.take(k));
        assert forall|i: int| k <= i < s.len() implies p(#[trigger] s[i]) by {
            if i < s.len() - 1 {
                assert(s.drop_last()[i] == s[i]);
            }
        }
        k
    } else {
        assert(s.take(s.len() as int) =~= s);
        s.len() as int
    }
}

/// A value is a piece of its line: what stands before it is blank or a colon, what
/// stands behind it is blank, and it neither begins nor ends with a blank.
pub proof fn values_are_pieces_of_lines(s: Seq<char>) -> (r: (int, int))
    ensures
        0 <= r.0 <= r.1 <= s.len(),
        value_of(s) == s.subrange(r.0, r.1),
        forall|i: int| 0 <= i < r.0 ==> is_space(#[trigger] s[i]) || s[i] == ':',
        forall|i: int| r.1 <= i < s.len() ==> is_space(#[trigger] s[i]),
        r.0 < r.1 ==> !is_space(s[r.0]) && !is_space(s[r.1 - 1]),
{
    let sep = |c: char| is_separator(c);
    let spc = |c: char| is_space(c);
    let a = trimming_in_front(s, sep);
    let t = s.skip(a);
    let b = trimming_in_front(t, spc);
    let u = t.skip(b);
    let e = trimming_at_the_end(u, spc);
    assert(u.take(e) =~= s.subrange(a + b, a + b + e));
    assert forall|i: int| 0 <= i < a + b implies is_space(#[trigger] s[i]) || s[i] == ':' by {
        if i < a {
            assert(sep(s[i]));
        } else {
            assert(t[i - a] == s[i]);
            assert(spc(t[i - a]));
        }
    }
    assert forall|i: int| a + b + e <= i < s.len() implies is_space(#[trigger] s[i]) by {
        assert(u[i - a - b] == s[i]);
        assert(spc(u[i - a - b]));
    }
    if e > 0 {
        assert(u[e - 1] == s[a + b + e - 1]);
        assert(t[b] == s[a + b]);
    }
    (a + b, a + b + e)
}

/// What is blank: of the ASCII characters the space, the tabs, the line feed, the form
/// feed and the carriage return; no letter, no digit and no sign is.
pub proof fn blanks_of_the_ascii_code(c: char)
    requires
        (c as int) < 128,
    ensures
        is_space(c) <==> c == ' ' || c == '\t' || c == '\n' || c == '\r' || c as int == 11 || c as int == 12,
        is_separator(c) <==> c == ' ' || c == '\t' || c == ':',
{
    assert(c as int == 32 ==> c == ' ');
    assert(c as int == 9 ==> c == '\t');
    assert(c as int == 10 ==> c == '\n');
    assert(c as int == 13 ==> c == '\r');
}

proof fn lemma_line_at(t: Seq<char>, i: int, e: int)
    requires
        0 <= i <= e <= t.len(),
        forall|k: int| i <= k < e ==> t[k] != '\n',
        e == t.len() || t[e] == '\n',
    ensures
        line_end(t, i) == e,
    decreases e - i,
{
    if i < e {
        lemma_line_at(t, i + 1, e);
    }
}

proof fn lemma_line_shift(t: Seq<char>, k: int, i: int)
    requires
        0 <= k <= t.len(),
        0 <= i,
    ensures
        line_end(t, k + i) == k + line_end(t.skip(k), i),
        i <= line_end(t.skip(k), i),
    decreases t.len() - k - i,
{
    if k + i < t.len() {
        assert(t.skip(k)[i] == t[k + i]);
        if t[k + i] != '\n' {
            lemma_line_shift(t, k, i + 1);
        }
    }
}

proof fn lemma_line_within(t: Seq<char>, i: int)
    requires
        0 <= i <= t.len(),
    ensures
        i <= line_end(t, i) <= t.len(),
    decreases t.len() - i,
{
    if i < t.len() && t[i] != '\n' {
        lemma_line_within(t, i + 1);
    }
}

proof fn lemma_model_shift(t: Seq<char>, k: int, i: int)
    requires
        0 <= k <= t.len(),
        0 <= i,
    ensures
        model_at(t, k + i) == model_at(t.skip(k), i),
    decreases t.len() + 1 - k - i,
{
    let u = t.skip(k);
    if k + i < t.len() {
        lemma_line_shift(t, k, i);
        lemma_line_within(u, i);
        let e = line_end(u, i);
        if i + 10 <= e {
            assert(u.subrange(i, i + 10) =~= t.subrange(k + i, k + i + 10));
            assert(u.subrange(i + 10, e) =~= t.subrange(k + i + 10, k + e));
        }
        lemma_model_shift(t, k, e + 1);
    }
}

/// The processor is named by the first line that begins with the name of the field:
/// by what stands behind that name. A line that does not begin with it is passed over.
pub proof fn first_line_of_the_field_names_the_processor(a: Seq<char>, b: Seq<char>)
    requires
        forall|k: int| 0 <= k < a.len() ==> a[k] != '\n',
    ensures
        model_at(Seq::empty(), 0) is None,
        a.len() >= 10 && a.take(10) == "model name"@ ==> model_at(a.push('\n') + b, 0) == Some(value_of(a.skip(10))) && model_at(a, 0) == Some(value_of(a.skip(10))),
        !(a.len() >= 10 && a.take(10) == "model name"@) ==> model_at(a.push('\n') + b, 0) == model_at(b, 0) && model_at(a, 0) is None,
{
    let t = a.push('\n') + b;
    let n = a.len() as int;
    assert forall|k: int| 0 <= k < n implies t[k] != '\n' by {
        assert(t[k] == a[k]);
    }
    assert(t[n] == '\n');
    lemma_line_at(t, 0, n);
    lemma_line_at(a, 0, n);
    lemma_model_shift(t, n + 1, 0);
    assert(t.skip(n + 1) =~= b);
    assert(model_at(a, n + 1) is None);
    assert(model_at(t, n + 1) == model_at(b, 0));
    if n >= 10 {
        assert(t.subrange(0, 10) =~= a.take(10));
        assert(a.subrange(0, 10) =~= a.take(10));
        assert(t.subrange(10, n) =~= a.skip(10));
        assert(a.subrange(10, n) =~= a.skip(10));
    }
}

// ---- rows ----------------------------------------------------------------------------------------

/// A text without commas has a semicolon for each and the other characters as they
/// were.
pub proof fn commas_become_semicolons(s: Seq<char>, i: int)
    requires
        0 <= i < s.len(),
    ensures
        without_commas(s).len() == s.len(),
        s[i] == ',' ==> without_commas(s)[i] == ';',
        s[i] != ',' ==> without_commas(s)[i] == s[i],
{
}

/// A flag is a one or a zero, and a number that is missing is nothing.
pub proof fn flags_are_digits()
    ensures
        flag_of(true) == seq!['1'],
        flag_of(false) == seq!['0'],
        optional_of(None).len() == 0,
{
    assert(49 as char == '1' && 48 as char == '0');
    assert(flag_of(true) =~= seq!['1']);
    assert(flag_of(false) =~= seq!['0']);
}

proof fn lemma_lines_same(a: Seq<CountRow>, b: Seq<CountRow>, n: int)
    requires
        n <= a.len(),
        n <= b.len(),
        forall|i: int| 0 <= i < n ==> a[i] == b[i],
    ensures
        lines_to(a, n) == lines_to(b, n),
    decreases n,
{
    if n > 0 {
        lemma_lines_same(a, b, n - 1);
    }
}

/// A file holds one line for each row, in their order, each with a line feed behind
/// it.
pub proof fn files_hold_a_line_for_each_row(rows: Seq<CountRow>, r: CountRow)
    ensures
        lines_to(Seq::empty(), 0).len() == 0,
        lines_to(rows.push(r), rows.len() as int + 1) == (lines_to(rows, rows.len() as int) + r.line()).push('\n'),
{
    lemma_lines_same(rows.push(r), rows, rows.len() as int);
    reveal_strlit("\n");
    let s = lines_to(rows, rows.len() as int) + r.line();
    assert(s + "\n"@ =~= s.push('\n'));
}

proof fn lemma_first_drop<T: Item2>(s: Seq<T>, i: int, k: int)
    requires
        1 <= i <= k <= s.len(),
        forall|j: int| i <= j < k ==> elem_le::<T>()(s[j - 1], #[trigger] s[j]),
        k < s.len() ==> !elem_le::<T>()(s[k - 1], s[k]),
    ensures
        first_drop(s, i) == k,
    decreases k - i,
{
    if i < k {
        assert(elem_le::<T>()(s[i - 1], s[i]));
        lemma_first_drop(s, i + 1, k);
    }
}

/// The output of an unstable sort has no fault where no element goes before the one
/// before it and the numbers of the input are there, each once; otherwise the first
/// element out of order is named.
pub proof fn unstable_outputs_are_ordered_and_whole<T: Item2>(out: Seq<T>, n: int, k: int)
    requires
        1 <= k <= out.len() <= usize::MAX,
        forall|j: int| 1 <= j < k ==> elem_le::<T>()(out[j - 1], #[trigger] out[j]),
        k < out.len() ==> !elem_le::<T>()(out[k - 1], out[k]),
    ensures
        out.len() != n ==> order_fault(out, n) == Some(Fault::Size),
        out.len() == n && k < n ==> order_fault(out, n) == Some(Fault::NotSorted { index: k as usize }),
        out.len() == n && k == n ==> (order_fault(out, n) is None <==> (forall|i: int| 0 <= i < n ==> (#[trigger] out[i]).number() < n) && forall|i: int, j: int|
            0 <= i < j < n ==> (#[trigger] out[i]).number() != (#[trigger] out[j]).number()),
        out.len() == n && k == n && order_fault(out, n) is Some ==> order_fault(out, n) == Some(Fault::NotPermutation),
{
    lemma_first_drop(out, 1, k);
}

/// A row has no error where the result is that of the sort and all memory came back;
/// a wrong result counts before memory that did not.
pub proof fn rows_without_error<T: Item2>(a: Algorithm, out: Seq<T>, reference: Seq<T>, leak: usize)
    ensures
        a != Algorithm::SliceSortUnstable ==> (row_error(a, out, reference, leak) is None <==> leak == 0 && out.len() == reference.len() && forall|i: int|
            0 <= i < out.len() ==> (#[trigger] out[i]).same_as(&reference[i])),
        a == Algorithm::SliceSortUnstable ==> (row_error(a, out, reference, leak) is None <==> leak == 0 && order_fault(out, reference.len() as int) is None),
        row_error(a, out, reference, leak) matches Some(RowError::Leak { bytes }) ==> bytes == leak && leak > 0,
{
    faults_name_the_first_difference(out, reference, 0);
}

/// A run has no error where memory was there, all of it came back, and the elements are
/// those of the sort in its order.
pub proof fn runs_without_error<T: Item2>(failed: bool, leak: usize, out: Seq<T>, reference: Seq<T>)
    ensures
        run_error(failed, leak, out, reference) is None <==> !failed && leak == 0 && out.len() == reference.len() && forall|i: int|
            0 <= i < out.len() ==> (#[trigger] out[i]).same_as(&reference[i]),
        failed ==> run_error(failed, leak, out, reference) == Some(RunError::Allocation),
        !failed && leak != 0 ==> run_error(failed, leak, out, reference) == Some(RunError::Leak { bytes: leak }),
{
    faults_name_the_first_difference(out, reference, 0);
}

/// The columns of a run bear the names that a file of runs has, in its order, and the
/// values that were counted.
pub proof fn columns_show_the_counts(r: DetRecord)
    ensures
        r.columns().len() == run_columns().len(),
        forall|i: int| 0 <= i < r.columns().len() ==> (#[trigger] r.columns()[i]).0 == run_columns()[i],
        number_of(r.columns()[0].1) == Some(r.traffic.reads as nat),
        number_of(r.columns()[1].1) == Some(r.traffic.writes as nat),
        number_of(r.columns()[2].1) == Some(r.counters.compares as nat),
        number_of(r.columns()[3].1) == Some(r.traffic.table_reads as nat),
        number_of(r.columns()[4].1) == Some(r.traffic.table_writes as nat),
        number_of(r.columns()[5].1) == Some(r.traffic.table_bytes as nat),
        number_of(r.columns()[6].1) == Some(r.traffic.key_bytes as nat),
        number_of(r.columns()[7].1) == Some(r.counters.flips as nat),
        number_of(r.columns()[12].1) == Some(r.alloc.peak as nat),
        number_of(r.columns()[13].1) == Some(r.alloc.allocs as nat),
        number_of(r.columns()[14].1) == Some(r.stats.max_depth as nat),
{
    numbers_are_read_back(r.traffic.reads as nat);
    numbers_are_read_back(r.traffic.writes as nat);
    numbers_are_read_back(r.counters.compares as nat);
    numbers_are_read_back(r.traffic.table_reads as nat);
    numbers_are_read_back(r.traffic.table_writes as nat);
    numbers_are_read_back(r.traffic.table_bytes as nat);
    numbers_are_read_back(r.traffic.key_bytes as nat);
    numbers_are_read_back(r.counters.flips as nat);
    numbers_are_read_back(r.alloc.peak as nat);
    numbers_are_read_back(r.alloc.allocs as nat);
    numbers_are_read_back(r.stats.max_depth as nat);
}

/// The columns of a row that are compared bear the names that are looked for, and the
/// values that were counted.
pub proof fn compared_columns_show_the_counts(r: CountRow)
    ensures
        r.checked().len() == checked_columns().len(),
        forall|i: int| 0 <= i < r.checked().len() ==> (#[trigger] r.checked()[i]).0 == checked_columns()[i],
        number_of(r.checked()[0].1) == Some(
            if r.error is None {
                1nat
            } else {
                0
            },
        ),
        number_of(r.checked()[1].1) == Some(r.compares as nat),
        number_of(r.checked()[2].1) == Some(r.flips as nat),
        r.key_reads matches Some(k) ==> number_of(r.checked()[3].1) == Some(k as nat),
        r.key_reads is None ==> r.checked()[3].1.len() == 0,
        number_of(r.checked()[4].1) == Some(r.aux_peak_bytes as nat),
{
    numbers_are_read_back(0);
    numbers_are_read_back(1);
    numbers_are_read_back(r.compares as nat);
    numbers_are_read_back(r.flips as nat);
    numbers_are_read_back(r.aux_peak_bytes as nat);
    if let Some(k) = r.key_reads {
        numbers_are_read_back(k as nat);
    }
}

/// A stamp holds one line for each field, its name in quotes and its value behind a
/// colon, with a comma behind all but the last.
pub proof fn stamps_hold_a_line_for_each_field(fields: Seq<(Seq<char>, Seq<char>)>, name: Seq<char>, value: Seq<char>)
    ensures
        stamp_of(Seq::empty(), true) == "<!-- stamp {\n"@,
        stamp_of(Seq::empty(), false) == "<!-- stamp {\n"@,
        stamp_of(fields.push((name, value)), true) == stamp_of(fields, false) + seq![' ', ' ', '"'] + name + seq!['"', ':', ' '] + value + seq!['\n'],
        stamp_of(fields.push((name, value)), false) == stamp_of(fields, false) + seq![' ', ' ', '"'] + name + seq!['"', ':', ' '] + value + seq![',', '\n'],
{
    let t = fields.push((name, value));
    assert(t.drop_last() =~= fields);
    reveal_strlit("  \"");
    reveal_strlit("\": ");
    reveal_strlit("\n");
    reveal_strlit(",\n");
    assert("  \""@ =~= seq![' ', ' ', '"']);
    assert("\": "@ =~= seq!['"', ':', ' ']);
    assert("\n"@ =~= seq!['\n']);
    assert(",\n"@ =~= seq![',', '\n']);
}

/// A row tells the type, the input, the sort and its size, and what was seen of it: the
/// comparisons, the key reads where there were any, the peak of the memory and the hash
/// of the order that it left.
pub proof fn rows_tell_what_was_seen<T: Item2>(dataset: Pattern, a: Algorithm, out: Seq<T>, reference: Seq<T>, m: Measured)
    requires
        reference.len() <= usize::MAX,
    ensures
        ({
            let r = counts::row_of(dataset, a, out, reference, m);
            &&& r.ty == T::kind() && r.dataset == dataset && r.algorithm == a
            &&& r.n == reference.len()
            &&& r.seed == 20260912
            &&& r.compares == m.counters.compares
            &&& r.flips == m.counters.flips
            &&& r.key_reads is Some <==> m.counters.key_reads > 0
            &&& r.key_reads is Some ==> r.key_reads == Some(m.counters.key_reads)
            &&& r.aux_peak_bytes == m.alloc.peak
            &&& r.order_hash == order_hash_to(out, out.len() as int)
        }),
{
}

/// The row of this library's sort tells what its counted run tells, and has an error
/// where the run has one.
pub proof fn own_rows_tell_what_was_counted<T: Item2>(dataset: Pattern, n: usize, det: DetRecord)
    ensures
        ({
            let r = own_row::<T>(dataset, n, det);
            &&& r.ty == T::kind() && r.dataset == dataset && r.algorithm == Algorithm::Brainsort
            &&& r.n == n
            &&& r.seed == 20260912
            &&& r.compares == det.counters.compares
            &&& r.flips == det.counters.flips
            &&& r.key_reads is None
            &&& r.aux_peak_bytes == det.alloc.peak
            &&& r.order_hash == det.order_hash
            &&& r.error is None <==> det.error is None
            &&& det.error matches Some(e) ==> r.error == Some(RowError::Run { error: e })
        }),
{
}

/// A fault in words names the place, and the element that stands there and the one that
/// should.
pub proof fn faults_in_words(index: usize, id: u32, expected: u32)
    ensures
        (Fault::Mismatch { index, id, expected }).text() == "mismatch at index "@ + decimal_of(index as nat) + " (id "@ + decimal_of(id as nat) + " vs expected id "@ + decimal_of(
            expected as nat,
        ) + ") - not sorted or not stable"@,
        (Fault::NotSorted { index }).text() == "not sorted at index "@ + decimal_of(index as nat),
        Fault::Size.text() == "size changed"@,
        Fault::NotPermutation.text() == "not a permutation of the input"@,
        (RowError::Leak { bytes: index }).text() == "aux_memory_leak:"@ + decimal_of(index as nat),
        RunError::Allocation.text() == "allocation failed"@,
        (RunError::Leak { bytes: index }).text() == "aux_memory_leak"@,
{
}

// ---- the comparison of files ---------------------------------------------------------------------

/// A field is found by its name, the first of that name.
pub proof fn fields_are_found_by_name(fields: Seq<(Seq<char>, Seq<char>)>, name: Seq<char>, i: int)
    requires
        0 <= i <= fields.len(),
    ensures
        i <= field_from(fields, name, i) <= fields.len(),
        field_from(fields, name, i) < fields.len() ==> fields[field_from(fields, name, i)].0 == name,
        forall|k: int| i <= k < field_from(fields, name, i) ==> (#[trigger] fields[k]).0 != name,
    decreases fields.len() - i,
{
    if i < fields.len() && fields[i].0 != name {
        fields_are_found_by_name(fields, name, i + 1);
    }
}

/// A recorded row is answered by the first computed row of its type, its dataset, its
/// sort and its size.
pub proof fn rows_are_found_by_cell(want: RowText, got: Seq<CountRow>, i: int)
    requires
        0 <= i <= got.len(),
    ensures
        i <= answer_from(want, got, i) <= got.len(),
        answer_from(want, got, i) < got.len() ==> {
            let g = got[answer_from(want, got, i)];
            g.ty.text() == want.ty && g.dataset.text() == want.dataset && g.algorithm.text() == want.algorithm && g.n == want.n
        },
        forall|k: int|
            i <= k < answer_from(want, got, i) ==> !((#[trigger] got[k]).ty.text() == want.ty && got[k].dataset.text() == want.dataset && got[k].algorithm.text() == want.algorithm
                && got[k].n == want.n),
    decreases got.len() - i,
{
    if i < got.len() && !answers_to(want, got[i]) {
        rows_are_found_by_cell(want, got, i + 1);
    }
}

/// The differences are the recorded fields whose value was computed and is another:
/// none is left out and none is made up.
pub proof fn differences_are_complete(want: Seq<(Seq<char>, Seq<char>)>, got: Seq<(Seq<char>, Seq<char>)>, k: int)
    requires
        0 <= k <= want.len(),
    ensures
        forall|j: int, i: int|
            0 <= j < k && 0 <= i < got.len() && (#[trigger] got[i]).0 == (#[trigger] want[j]).0 && (forall|h: int| 0 <= h < i ==> (#[trigger] got[h]).0 != want[j].0) && got[i].1 != want[j].1
                ==> differing(want, got, k).contains((want[j].0, want[j].1, got[i].1)),
        forall|d: (Seq<char>, Seq<char>, Seq<char>)| #[trigger]
            differing(want, got, k).contains(d) ==> d.1 != d.2 && want.contains((d.0, d.1)) && got.contains((d.0, d.2)),
    decreases k,
{
    if k > 0 {
        differences_are_complete(want, got, k - 1);
        let rest = differing(want, got, k - 1);
        let all = differing(want, got, k);
        let w = want[k - 1];
        fields_are_found_by_name(got, w.0, 0);
        let at = field_from(got, w.0, 0);
        assert forall|d: (Seq<char>, Seq<char>, Seq<char>)| #[trigger] all.contains(d) implies d.1 != d.2 && want.contains((d.0, d.1)) && got.contains((d.0, d.2)) by {
            let x = choose|x: int| 0 <= x < all.len() && all[x] == d;
            if x < rest.len() {
                assert(rest[x] == d);
                assert(rest.contains(d));
            } else {
                assert(want[k - 1] == (d.0, d.1));
                assert(got[at] == (d.0, d.2));
            }
        }
        assert forall|j: int, i: int|
            0 <= j < k && 0 <= i < got.len() && (#[trigger] got[i]).0 == (#[trigger] want[j]).0 && (forall|h: int| 0 <= h < i ==> (#[trigger] got[h]).0 != want[j].0) && got[i].1
                != want[j].1 implies all.contains((want[j].0, want[j].1, got[i].1)) by {
            let d = (want[j].0, want[j].1, got[i].1);
            if j < k - 1 {
                assert(rest.contains(d));
                let x = choose|x: int| 0 <= x < rest.len() && rest[x] == d;
                assert(all[x] == d);
            } else {
                if at < i {
                    assert(got[at].0 == w.0);
                }
                if i < at {
                    assert(got[i].0 != w.0);
                }
                assert(at == i);
                assert(all.last() == d);
            }
        }
    }
}

/// A check passes where every recorded row within the limit was computed and no field
/// of it differs; each failure names a row that fails.
pub proof fn failures_are_complete(want: Seq<RowText>, got: Seq<CountRow>, max_n: nat, k: int)
    requires
        0 <= k <= want.len(),
    ensures
        failures_to(want, got, max_n, k).len() == 0 <==> forall|j: int| 0 <= j < k && (#[trigger] want[j]).n <= max_n ==> failure_of(want[j], got) is None,
        forall|i: int|
            0 <= i < failures_to(want, got, max_n, k).len() ==> {
                let f = #[trigger] failures_to(want, got, max_n, k)[i];
                0 <= f.0 < k && want[f.0].n <= max_n && failure_of(want[f.0], got) == Some(f.1)
            },
    decreases k,
{
    if k > 0 {
        failures_are_complete(want, got, max_n, k - 1);
        let rest = failures_to(want, got, max_n, k - 1);
        let all = failures_to(want, got, max_n, k);
        if all.len() == 0 {
            assert(rest.len() == 0);
        }
        if forall|j: int| 0 <= j < k && (#[trigger] want[j]).n <= max_n ==> failure_of(want[j], got) is None {
            assert(want[k - 1].n <= max_n ==> failure_of(want[k - 1], got) is None);
        }
        assert forall|i: int| 0 <= i < all.len() implies {
            let f = #[trigger] all[i];
            0 <= f.0 < k && want[f.0].n <= max_n && failure_of(want[f.0], got) == Some(f.1)
        } by {
            if i < rest.len() {
                assert(all[i] == rest[i]);
            }
        }
    }
}

/// A row that was not computed fails without a difference, and one that was fails with
/// the fields that differ.
pub proof fn failures_of_a_row(want: RowText, got: Seq<CountRow>)
    ensures
        failure_of(want, got) == Some(None::<Seq<(Seq<char>, Seq<char>, Seq<char>)>>) <==> forall|i: int| 0 <= i < got.len() ==> !answers_to(want, #[trigger] got[i]),
        failure_of(want, got) matches Some(Some(d)) ==> d.len() > 0,
{
    rows_are_found_by_cell(want, got, 0);
    let i = answer_from(want, got, 0);
    if i < got.len() {
        assert(answers_to(want, got[i]));
    }
}

/// As many rows are compared as are within the limit.
pub proof fn rows_within_the_limit_are_counted(want: Seq<RowText>, max_n: nat, k: int)
    requires
        0 <= k <= want.len(),
    ensures
        within(want, max_n, k) == want.take(k).filter(|r: RowText| r.n <= max_n).len(),
    decreases k,
{
    let f = |r: RowText| r.n <= max_n;
    reveal(Seq::filter);
    if k > 0 {
        rows_within_the_limit_are_counted(want, max_n, k - 1);
        assert(want.take(k).drop_last() =~= want.take(k - 1));
    }
}

/// The columns of a line are those that the header has, in the order asked for, each
/// with the field that stands under it.
pub proof fn columns_are_picked_by_name(header: Seq<Seq<char>>, columns: Seq<Seq<char>>, line: Seq<Seq<char>>, k: int, i: int)
    requires
        0 < k <= columns.len(),
        0 <= i < header.len(),
        header[i] == columns[k - 1],
        forall|h: int| 0 <= h < i ==> header[h] != columns[k - 1],
    ensures
        picked_fields(header, columns, line, k) == picked_fields(header, columns, line, k - 1).push(
            (
                columns[k - 1],
                if i < line.len() {
                    line[i]
                } else {
                    Seq::empty()
                },
            ),
        ),
{
    columns_are_found_by_name(header, columns[k - 1], 0);
    let j = column_from(header, columns[k - 1], 0);
    assert(j == i) by {
        if j < i {
            assert(header[j] == columns[k - 1]);
        }
        if i < j {
            assert(header[i] != columns[k - 1]);
        }
    }
}

/// A column that the header does not have is left out.
pub proof fn missing_columns_are_left_out(header: Seq<Seq<char>>, columns: Seq<Seq<char>>, line: Seq<Seq<char>>, k: int)
    requires
        0 < k <= columns.len(),
        !header.contains(columns[k - 1]),
    ensures
        picked_fields(header, columns, line, k) == picked_fields(header, columns, line, k - 1),
{
    columns_are_found_by_name(header, columns[k - 1], 0);
}

/// A line of a file is a row where it has the four columns of its cell and its size is
/// a number: the type, the dataset, the sort and the size are the fields under the first
/// columns of these names.
pub proof fn lines_are_read_by_column(header: Seq<Seq<char>>, line: Seq<Seq<char>>, t: int, d: int, a: int, n: int)
    requires
        0 <= t < header.len() && header[t] == "type"@ && (forall|k: int| 0 <= k < t ==> header[k] != "type"@),
        0 <= d < header.len() && header[d] == "dataset"@ && (forall|k: int| 0 <= k < d ==> header[k] != "dataset"@),
        0 <= a < header.len() && header[a] == "algorithm"@ && (forall|k: int| 0 <= k < a ==> header[k] != "algorithm"@),
        0 <= n < header.len() && header[n] == "n"@ && (forall|k: int| 0 <= k < n ==> header[k] != "n"@),
    ensures
        t >= line.len() || d >= line.len() || a >= line.len() || n >= line.len() ==> check::row_of(header, line) == Err::<RowText, FileError>(FileError::ShortLine),
        check::row_of(header, line) is Ok <==> t < line.len() && d < line.len() && a < line.len() && n < line.len() && number_of(line[n]) is Some,
        check::row_of(header, line) matches Ok(r) ==> r.ty == line[t] && r.dataset == line[d] && r.algorithm == line[a] && number_of(line[n]) == Some(r.n) && r.fields == picked_fields(
            header,
            checked_columns(),
            line,
            checked_columns().len() as int,
        ),
{
    lemma_column(header, "type"@, t);
    lemma_column(header, "dataset"@, d);
    lemma_column(header, "algorithm"@, a);
    lemma_column(header, "n"@, n);
}

proof fn lemma_column(header: Seq<Seq<char>>, name: Seq<char>, i: int)
    requires
        0 <= i < header.len(),
        header[i] == name,
        forall|k: int| 0 <= k < i ==> header[k] != name,
    ensures
        column_from(header, name, 0) == i,
{
    columns_are_found_by_name(header, name, 0);
    let j = column_from(header, name, 0);
    if j < i {
        assert(header[j] == name);
    }
    if i < j {
        assert(header[i] != name);
    }
}

/// The value of a field is that of the first field of its name, and nothing where there
/// is none.
pub proof fn values_are_found_by_name(fields: Seq<(Seq<char>, Seq<char>)>, name: Seq<char>, i: int)
    ensures
        0 <= i < fields.len() && fields[i].0 == name && (forall|k: int| 0 <= k < i ==> (#[trigger] fields[k]).0 != name) ==> check::value_of(fields, name) == fields[i].1,
        (forall|k: int| 0 <= k < fields.len() ==> (#[trigger] fields[k]).0 != name) ==> check::value_of(fields, name).len() == 0,
{
    fields_are_found_by_name(fields, name, 0);
    let j = field_from(fields, name, 0);
    if j < fields.len() {
        assert(fields[j].0 == name);
    }
    if 0 <= i < fields.len() && i < j {
        assert(fields[i].0 != name);
    }
}

/// A recorded run is found by its type, its dataset and its size, the first of them.
pub proof fn recorded_runs_are_found_by_cell(want: RowText, golden: Seq<GoldenText>, i: int)
    requires
        0 <= i <= golden.len(),
    ensures
        i <= run_from(want, golden, i) <= golden.len(),
        run_from(want, golden, i) < golden.len() ==> {
            let g = golden[run_from(want, golden, i)];
            g.ty == want.ty && g.dataset == want.dataset && g.n == want.n
        },
        forall|k: int| i <= k < run_from(want, golden, i) ==> !((#[trigger] golden[k]).ty == want.ty && golden[k].dataset == want.dataset && golden[k].n == want.n),
    decreases golden.len() - i,
{
    if i < golden.len() && !(golden[i].ty == want.ty && golden[i].dataset == want.dataset && golden[i].n == want.n) {
        recorded_runs_are_found_by_cell(want, golden, i + 1);
    }
}

/// Two rows share their columns where the comparisons, the flips and the peak of the
/// memory are the same in both.
pub proof fn shared_columns_are_compared(a: Seq<(Seq<char>, Seq<char>)>, b: Seq<(Seq<char>, Seq<char>)>)
    ensures
        unshared(a, b, 3).len() == 0 <==> {
            &&& check::value_of(a, "compares"@) == check::value_of(b, "compares"@)
            &&& check::value_of(a, "cmp_flips"@) == check::value_of(b, "cmp_flips"@)
            &&& check::value_of(a, "aux_peak_bytes"@) == check::value_of(b, "aux_peak_bytes"@)
        },
{
    reveal_with_fuel(unshared, 4);
}

/// The rows of this library's sort hold to the recorded runs where each of them within
/// the limit was recorded and shares its columns; rows of other sorts are not held to
/// them.
pub proof fn rows_hold_to_the_recorded_runs(want: Seq<RowText>, golden: Seq<GoldenText>, max_n: nat, k: int)
    requires
        0 <= k <= want.len(),
    ensures
        drifted_to(want, golden, max_n, k).len() == 0 <==> forall|j: int|
            0 <= j < k && (#[trigger] want[j]).algorithm == "brainsort"@ && want[j].n <= max_n ==> run_from(want[j], golden, 0) < golden.len() && unshared(
                want[j].fields,
                golden[run_from(want[j], golden, 0)].values,
                3,
            ).len() == 0,
    decreases k,
{
    if k > 0 {
        rows_hold_to_the_recorded_runs(want, golden, max_n, k - 1);
        let rest = drifted_to(want, golden, max_n, k - 1);
        let all = drifted_to(want, golden, max_n, k);
        let w = want[k - 1];
        if all.len() == 0 {
            assert(rest.len() == 0);
        }
        if forall|j: int|
            0 <= j < k && (#[trigger] want[j]).algorithm == "brainsort"@ && want[j].n <= max_n ==> run_from(want[j], golden, 0) < golden.len() && unshared(
                want[j].fields,
                golden[run_from(want[j], golden, 0)].values,
                3,
            ).len() == 0 {
            assert(want[k - 1] == w);
        }
    }
}

/// A recorded run is that of this library's sort where it did not fail; lines of other
/// sorts and of runs that failed are passed over, however short they are otherwise.
pub proof fn recorded_runs_are_read_by_column(header: Seq<Seq<char>>, line: Seq<Seq<char>>, a: int, ok: int)
    requires
        0 <= a < header.len() && header[a] == "algorithm"@ && (forall|k: int| 0 <= k < a ==> header[k] != "algorithm"@),
        0 <= ok < header.len() && header[ok] == "ok"@ && (forall|k: int| 0 <= k < ok ==> header[k] != "ok"@),
        a < line.len(),
        ok < line.len(),
    ensures
        line[a] != "brainsort"@ || line[ok] != "1"@ ==> golden_of(header, line) == Ok::<Option<GoldenText>, FileError>(None),
        golden_of(header, line) matches Ok(Some(g)) ==> line[a] == "brainsort"@ && line[ok] == "1"@,
{
    lemma_column(header, "algorithm"@, a);
    lemma_column(header, "ok"@, ok);
}

/// A recorded run has the fields under the columns of its names, and its size and seed
/// are numbers.
pub proof fn recorded_runs_have_their_fields(header: Seq<Seq<char>>, line: Seq<Seq<char>>, t: int, d: int, n: int, s: int)
    requires
        0 <= t < header.len() && header[t] == "type"@ && (forall|k: int| 0 <= k < t ==> header[k] != "type"@),
        0 <= d < header.len() && header[d] == "dataset"@ && (forall|k: int| 0 <= k < d ==> header[k] != "dataset"@),
        0 <= n < header.len() && header[n] == "n"@ && (forall|k: int| 0 <= k < n ==> header[k] != "n"@),
        0 <= s < header.len() && header[s] == "seed"@ && (forall|k: int| 0 <= k < s ==> header[k] != "seed"@),
    ensures
        golden_of(header, line) matches Ok(Some(g)) ==> {
            &&& t < line.len() && d < line.len() && n < line.len() && s < line.len()
            &&& g.ty == line[t] && g.dataset == line[d]
            &&& number_of(line[n]) == Some(g.n) && number_of(line[s]) == Some(g.seed)
            &&& g.values == picked_fields(header, run_columns(), line, run_columns().len() as int)
        },
{
    lemma_column(header, "type"@, t);
    lemma_column(header, "dataset"@, d);
    lemma_column(header, "n"@, n);
    lemma_column(header, "seed"@, s);
}

/// The rows of a file are those of its lines, one after the other; the first line that
/// is none stops the reading with its error.
pub proof fn rows_are_read_in_turn(header: Seq<Seq<char>>, lines: Seq<Seq<Seq<char>>>, k: int)
    requires
        0 < k <= lines.len(),
    ensures
        rows_to(header, lines, 0) == Ok::<Seq<RowText>, FileError>(Seq::empty()),
        rows_to(header, lines, k) matches Ok(rows) ==> {
            &&& rows.len() == k
            &&& check::row_of(header, lines[k - 1]) == Ok::<RowText, FileError>(rows.last())
            &&& rows_to(header, lines, k - 1) == Ok::<Seq<RowText>, FileError>(rows.drop_last())
        },
        rows_to(header, lines, k) is Err ==> {
            ||| rows_to(header, lines, k - 1) is Ok && check::row_of(header, lines[k - 1]) is Err && check::row_of(header, lines[k - 1])->Err_0 == rows_to(header, lines, k)->Err_0
            ||| rows_to(header, lines, k - 1) == rows_to(header, lines, k)
        },
    decreases k,
{
    if k > 1 {
        rows_are_read_in_turn(header, lines, k - 1);
    }
    if let Ok(rows) = rows_to(header, lines, k) {
        let before = rows_to(header, lines, k - 1)->Ok_0;
        assert(rows.drop_last() =~= before);
    }
}

/// A file is refused where a byte is no ASCII character, and where it is empty.
pub proof fn files_are_text(b: Seq<u8>)
    ensures
        file_rows(b) == Err::<Seq<RowText>, FileError>(FileError::NotText) <== exists|i: int| 0 <= i < b.len() && #[trigger] b[i] >= 128,
        b.len() == 0 ==> file_rows(b) == Err::<Seq<RowText>, FileError>(FileError::Empty),
        golden_rows(b) == Err::<Seq<GoldenText>, FileError>(FileError::NotText) <== exists|i: int| 0 <= i < b.len() && #[trigger] b[i] >= 128,
        b.len() == 0 ==> golden_rows(b) == Err::<Seq<GoldenText>, FileError>(FileError::Empty),
{
}

/// What is blank beyond the ASCII code: the next line, the spaces without a break, the
/// spaces of every width, and the separators of lines and paragraphs.
pub proof fn blanks_beyond_the_ascii_code(c: char)
    requires
        c as int >= 128,
    ensures
        is_space(c) <==> c as int == 0x85 || c as int == 0xA0 || c as int == 0x1680 || 0x2000 <= c as int && c as int <= 0x200A || c as int == 0x2028 || c as int == 0x2029 || c as int
            == 0x202F || c as int == 0x205F || c as int == 0x3000,
        !is_separator(c),
{
}

/// The sorts and the routes are told apart by their names, and the sorts by their
/// places too.
pub proof fn names_tell_apart(a: Algorithm, b: Algorithm, r: u8, q: u8)
    requires
        r <= 5,
        q <= 5,
    ensures
        a.text() == b.text() <==> a == b,
        a.place() == b.place() <==> a == b,
        route_text(r) == route_text(q) <==> r == q,
{
    reveal_strlit("brainsort");
    assert("brainsort"@.len() == 9);
    reveal_strlit("slice::sort");
    assert("slice::sort"@.len() == 11);
    reveal_strlit("slice::sort_unstable");
    assert("slice::sort_unstable"@.len() == 20);
    reveal_strlit("slice::sort_by_cached_key");
    assert("slice::sort_by_cached_key"@.len() == 25);
    reveal_strlit("-");
    assert("-"@.len() == 1);
    reveal_strlit("sorted");
    assert("sorted"@.len() == 6);
    reveal_strlit("reverse");
    assert("reverse"@.len() == 7);
    reveal_strlit("runs");
    assert("runs"@.len() == 4);
    reveal_strlit("displaced");
    assert("displaced"@.len() == 9);
    reveal_strlit("radix");
    assert("radix"@.len() == 5);
}

/// The sorts of the timed comparison are held to the order of the numbers, and rows to
/// that of their keys.
pub proof fn opponents_go_by_the_numbers(a: i32, b: i32, c: i64, d: i64, x: Row, y: Row)
    ensures
        <i32 as Opponents>::le()(a, b) == (a <= b),
        <i64 as Opponents>::le()(c, d) == (c <= d),
        <Row as Opponents>::le()(x, y) == (x.key <= y.key),
{
}

/// Copies are sorted back to back where there are fewer than a hundred thousand
/// elements.
pub proof fn small_inputs_are_sorted_in_copies(n: usize)
    ensures
        n < REFERENCE_N <==> n < 100_000,
{
}

/// The files of the measured code are taken in the order of the bytes of their paths.
pub proof fn files_go_by_their_paths(a: SourceFile, b: SourceFile)
    ensures
        path_le()(a, b) == bytes_le(a.path@, b.path@),
{
    byte_vector_in_order(a.path, b.path);
}

/// The other sorts of the timed comparison are told apart by their names and by their
/// places, and two of them are stable.
pub proof fn opponents_are_told_apart(a: RadixCrate, b: RadixCrate, i: int, j: int)
    requires
        0 <= i < 4,
        0 <= j < 4,
    ensures
        a.title() == b.title() <==> a == b,
        RadixCrate::nth(i) == RadixCrate::nth(j) <==> i == j,
        a.is_stable() <==> a is Radsort || a is VoraciousStable,
{
    reveal_strlit("radsort");
    assert("radsort"@.len() == 7);
    reveal_strlit("voracious stable");
    assert("voracious stable"@.len() == 16);
    reveal_strlit("voracious unstable");
    assert("voracious unstable"@.len() == 18);
    reveal_strlit("rdst");
    assert("rdst"@.len() == 4);
}

} // verus!
