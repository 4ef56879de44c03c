//! Held against what was recorded: the rows of a file of counts, computed again.
use crate::bench::counted::{shown, DetRecord};
use crate::bench::counts::{Cell, CountRow};
use crate::bench::csv::{
    column, column_from, is_plain, lines_from, number_of, parse_number, parse_table, pieces, plain,
    row_views, rows_of, texts_of, views_of, Table,
};
use crate::bench::datasets::{ElementType, Pattern};
use crate::bench::render::same_text;
use vstd::prelude::*;

verus! {

/// What is wrong with a file.
#[derive(Clone, Copy, Debug, PartialEq, Eq, Structural)]
pub enum FileError {
    /// There is no line.
    Empty,
    /// A column is missing.
    NoColumn,
    /// A line has too few fields.
    ShortLine,
    /// A field that should be a number is none.
    BadNumber,
    /// A byte is no ASCII character.
    NotText,
}

/// A name and a value.
pub struct Field {
    pub name: String,
    pub value: String,
}

/// Names and values as text.
pub open spec fn field_views(v: Seq<Field>) -> Seq<(Seq<char>, Seq<char>)> {
    v.map_values(|f: Field| (f.name@, f.value@))
}

/// A row of a file: the key of the cell and its columns.
pub struct FileRow {
    pub ty: String,
    pub dataset: String,
    pub algorithm: String,
    pub n: u64,
    pub fields: Vec<Field>,
}

/// A row of a file as text.
#[verifier::ext_equal]
pub struct RowText {
    pub ty: Seq<char>,
    pub dataset: Seq<char>,
    pub algorithm: Seq<char>,
    pub n: nat,
    pub fields: Seq<(Seq<char>, Seq<char>)>,
}

impl FileRow {
    /// The row as text.
    pub open spec fn text(&self) -> RowText {
        RowText {
            ty: self.ty@,
            dataset: self.dataset@,
            algorithm: self.algorithm@,
            n: self.n as nat,
            fields: field_views(self.fields@),
        }
    }
}

/// The rows as text.
pub open spec fn row_texts(rows: Seq<FileRow>) -> Seq<RowText> {
    rows.map_values(|r: FileRow| r.text())
}

/// The columns that are compared.
pub open spec fn checked_columns() -> Seq<Seq<char>> {
    seq!["ok"@, "compares"@, "cmp_flips"@, "key_reads"@, "aux_peak_bytes"@, "order_hash"@]
}

/// The first `k` of the columns, where the header has them, with the fields of a
/// line; a field that is not there is empty.
pub open spec fn picked_fields(header: Seq<Seq<char>>, columns: Seq<Seq<char>>, line: Seq<Seq<char>>, k: int) -> Seq<(Seq<char>, Seq<char>)>
    decreases k,
{
    if k <= 0 {
        Seq::empty()
    } else {
        let rest = picked_fields(header, columns, line, k - 1);
        let i = column_from(header, columns[k - 1], 0);
        if i >= header.len() {
            rest
        } else if i < line.len() {
            rest.push((columns[k - 1], line[i]))
        } else {
            rest.push((columns[k - 1], Seq::empty()))
        }
    }
}

/// The row of a line.
pub open spec fn row_of(header: Seq<Seq<char>>, line: Seq<Seq<char>>) -> Result<RowText, FileError> {
    let ct = column_from(header, "type"@, 0);
    let cd = column_from(header, "dataset"@, 0);
    let ca = column_from(header, "algorithm"@, 0);
    let cn = column_from(header, "n"@, 0);
    if ct >= line.len() || cd >= line.len() || ca >= line.len() || cn >= line.len() {
        Err(FileError::ShortLine)
    } else {
        match number_of(line[cn]) {
            Some(n) => Ok(
                RowText {
                    ty: line[ct],
                    dataset: line[cd],
                    algorithm: line[ca],
                    n,
                    fields: picked_fields(header, checked_columns(), line, 6),
                },
            ),
            None => Err(FileError::BadNumber),
        }
    }
}

/// The rows of the first `k` lines, or what is wrong with the first bad one.
pub open spec fn rows_to(header: Seq<Seq<char>>, lines: Seq<Seq<Seq<char>>>, k: int) -> Result<Seq<RowText>, FileError>
    decreases k,
{
    if k <= 0 {
        Ok(Seq::empty())
    } else {
        match rows_to(header, lines, k - 1) {
            Ok(rows) => match row_of(header, lines[k - 1]) {
                Ok(r) => Ok(rows.push(r)),
                Err(e) => Err(e),
            },
            Err(e) => Err(e),
        }
    }
}

/// What a file of counts holds.
pub open spec fn file_rows(b: Seq<u8>) -> Result<Seq<RowText>, FileError> {
    if !plain(b) {
        Err(FileError::NotText)
    } else if b.len() == 0 {
        Err(FileError::Empty)
    } else {
        let all = lines_from(b, 0);
        let header = texts_of(pieces(all[0], 44));
        let lines = rows_of(all.skip(1));
        let h = header.len();
        if column_from(header, "type"@, 0) >= h || column_from(header, "dataset"@, 0) >= h || column_from(header, "algorithm"@, 0) >= h || column_from(header, "n"@, 0) >= h {
            Err(FileError::NoColumn)
        } else {
            rows_to(header, lines, lines.len() as int)
        }
    }
}

/// The columns that are compared.
fn check_columns() -> (r: Vec<&'static str>)
    ensures
        names_of(r@) == checked_columns(),
{
    let mut r: Vec<&'static str> = Vec::new();
    r.push("ok");
    r.push("compares");
    r.push("cmp_flips");
    r.push("key_reads");
    r.push("aux_peak_bytes");
    r.push("order_hash");
    assert(names_of(r@) =~= checked_columns());
    r
}

/// Names as text.
pub open spec fn names_of(v: Seq<&'static str>) -> Seq<Seq<char>> {
    v.map_values(|x: &'static str| x@)
}

/// The given columns of a line.
fn pick_fields(header: &Vec<String>, columns: &Vec<&'static str>, line: &Vec<String>) -> (r: Vec<Field>)
    ensures
        field_views(r@) == picked_fields(views_of(header@), names_of(columns@), views_of(line@), columns@.len() as int),
{
    let mut r: Vec<Field> = Vec::new();
    let n: usize = columns.len();
    let mut k: usize = 0;
    let ghost h = views_of(header@);
    let ghost l = views_of(line@);
    let ghost c = names_of(columns@);
    assert(field_views(r@) =~= picked_fields(h, c, l, 0));
    while k < n
        invariant
            k <= n == columns@.len(),
            h == views_of(header@),
            l == views_of(line@),
            c == names_of(columns@),
            field_views(r@) == picked_fields(h, c, l, k as int),
        decreases n - k,
    {
        let name: &'static str = columns[k];
        assert(c[k as int] == name@);
        let ghost before = r@;
        if let Some(i) = column(header, name) {
            let value: String = if i < line.len() {
                line[i].clone()
            } else {
                String::new()
            };
            r.push(Field { name: String::from_str(name), value });
            assert(field_views(r@) =~= field_views(before).push((name@, r@.last().value@)));
            assert(i < l.len() ==> l[i as int] == line@[i as int]@);
            assert(i >= l.len() ==> r@.last().value@ =~= Seq::<char>::empty());
        }
        k += 1;
    }
    r
}

/// The rows of a file of counts.
pub fn parse_file(b: &[u8]) -> (r: Result<Vec<FileRow>, FileError>)
    ensures
        match r {
            Ok(rows) => file_rows(b@) == Ok::<Seq<RowText>, FileError>(row_texts(rows@)),
            Err(e) => file_rows(b@) == Err::<Seq<RowText>, FileError>(e),
        },
{
    if !is_plain(b) {
        return Err(FileError::NotText);
    }
    let table: Table = match parse_table(b) {
        Some(t) => t,
        None => {
            return Err(FileError::Empty);
        },
    };
    let ghost header = views_of(table.header@);
    let ghost lines = row_views(table.rows@);
    let ct: usize = match column(&table.header, "type") {
        Some(i) => i,
        None => {
            return Err(FileError::NoColumn);
        },
    };
    let cd: usize = match column(&table.header, "dataset") {
        Some(i) => i,
        None => {
            return Err(FileError::NoColumn);
        },
    };
    let ca: usize = match column(&table.header, "algorithm") {
        Some(i) => i,
        None => {
            return Err(FileError::NoColumn);
        },
    };
    let cn: usize = match column(&table.header, "n") {
        Some(i) => i,
        None => {
            return Err(FileError::NoColumn);
        },
    };
    let n: usize = table.rows.len();
    let columns: Vec<&'static str> = check_columns();
    assert(names_of(columns@).len() == columns@.len());
    let mut rows: Vec<FileRow> = Vec::new();
    let mut k: usize = 0;
    assert(row_texts(rows@) =~= Seq::<RowText>::empty());
    while k < n
        invariant
            k <= n == table.rows@.len(),
            header == views_of(table.header@),
            lines == row_views(table.rows@),
            names_of(columns@) == checked_columns(),
            columns@.len() == 6,
            file_rows(b@) == rows_to(header, lines, n as int),
            ct == column_from(header, "type"@, 0),
            cd == column_from(header, "dataset"@, 0),
            ca == column_from(header, "algorithm"@, 0),
            cn == column_from(header, "n"@, 0),
            rows_to(header, lines, k as int) == Ok::<Seq<RowText>, FileError>(row_texts(rows@)),
        decreases n - k,
    {
        let line: &Vec<String> = &table.rows[k];
        let ghost before = rows@;
        let ghost l = views_of(line@);
        assert(lines[k as int] == l);
        assert(l.len() == line@.len());
        if ct >= line.len() || cd >= line.len() || ca >= line.len() || cn >= line.len() {
            proof {
                lemma_rows_stop(header, lines, k + 1, n as int);
            }
            return Err(FileError::ShortLine);
        }
        assert(l[cn as int] == line@[cn as int]@);
        match parse_number(line[cn].as_str()) {
            Some(x) => {
                let row = FileRow {
                    ty: line[ct].clone(),
                    dataset: line[cd].clone(),
                    algorithm: line[ca].clone(),
                    n: x,
                    fields: pick_fields(&table.header, &columns, line),
                };
                assert(row_of(header, l) == Ok::<RowText, FileError>(row.text()));
                rows.push(row);
                assert(row_texts(rows@) =~= row_texts(before).push(row.text()));
            },
            None => {
                proof {
                    lemma_rows_stop(header, lines, k + 1, n as int);
                }
                return Err(FileError::BadNumber);
            },
        }
        k += 1;
    }
    Ok(rows)
}

/// What is wrong with a line is wrong with the file.
proof fn lemma_rows_stop(header: Seq<Seq<char>>, lines: Seq<Seq<Seq<char>>>, k: int, n: int)
    requires
        0 <= k <= n,
        rows_to(header, lines, k) is Err,
    ensures
        rows_to(header, lines, n) == rows_to(header, lines, k),
    decreases n - k,
{
    if k < n {
        lemma_rows_stop(header, lines, k, n - 1);
    }
}

// ---- the check -----------------------------------------------------------------------------------

/// A column that differs.
pub struct Difference {
    pub column: String,
    pub recorded: String,
    pub computed: String,
}

/// A row that was not computed again as it is recorded.
pub struct Failure {
    /// The row in the file.
    pub row: usize,
    /// The columns that differ; `None` where the row was not computed at all.
    pub differences: Option<Vec<Difference>>,
}

/// What a check found.
pub struct Report {
    /// Rows that were compared.
    pub checked: usize,
    /// Rows above the size.
    pub skipped: usize,
    /// Rows that failed.
    pub failures: Vec<Failure>,
}

/// The differences as text.
pub open spec fn difference_views(v: Seq<Difference>) -> Seq<(Seq<char>, Seq<char>, Seq<char>)> {
    v.map_values(|d: Difference| (d.column@, d.recorded@, d.computed@))
}

/// The cell is that of a recorded row of at most `max_n` elements.
pub open spec fn cell_for(r: FileRow, c: Cell, max_n: int) -> bool {
    r.n <= max_n && r.n == c.n && r.ty@ == c.ty.text() && r.dataset@ == c.dataset.text()
}

/// `at` is the first row of a cell.
pub open spec fn first_row(file: Seq<FileRow>, c: Cell, max_n: int, at: int) -> bool {
    &&& 0 <= at < file.len()
    &&& cell_for(file[at], c, max_n)
    &&& forall|k: int| 0 <= k < at ==> !cell_for(#[trigger] file[k], c, max_n)
}

/// The cells of the recorded rows of at most `max_n` elements whose names are
/// known, each once, in the order in which the rows name them first.
pub fn file_cells(file: &Vec<FileRow>, max_n: usize) -> (v: Vec<Cell>)
    ensures
        exists|at: Seq<int>| #[trigger]
            at.len() == v@.len() && (forall|i: int| 0 <= i < v@.len() ==> first_row(file@, #[trigger] v@[i], max_n as int, at[i])) && (forall|i: int, j: int|
                0 <= i < j < at.len() ==> #[trigger] at[i] < #[trigger] at[j]),
        forall|k: int, c: Cell| #![trigger cell_for(file@[k], c, max_n as int)] 0 <= k < file@.len() && cell_for(file@[k], c, max_n as int) ==> v@.contains(c),
{
    let mut v: Vec<Cell> = Vec::new();
    let ghost mut at: Seq<int> = Seq::empty();
    let mut i: usize = 0;
    while i < file.len()
        invariant
            i <= file@.len(),
            at.len() == v@.len(),
            forall|q: int| 0 <= q < v@.len() ==> first_row(file@, #[trigger] v@[q], max_n as int, at[q]),
            forall|q: int| 0 <= q < at.len() ==> #[trigger] at[q] < i,
            forall|q: int, p: int| 0 <= q < p < at.len() ==> #[trigger] at[q] < #[trigger] at[p],
            forall|k: int, c: Cell| #![trigger cell_for(file@[k], c, max_n as int)] 0 <= k < i && cell_for(file@[k], c, max_n as int) ==> v@.contains(c),
        decreases file@.len() - i,
    {
        let r: &FileRow = &file[i];
        let ghost before = v@;
        let ghost at0 = at;
        assert(forall|q: int| 0 <= q < before.len() ==> first_row(file@, #[trigger] before[q], max_n as int, at0[q]));
        let ty: Option<ElementType> = ElementType::parse(r.ty.as_str());
        let dataset: Option<Pattern> = Pattern::parse(r.dataset.as_str());
        if r.n <= max_n as u64 {
            if let Some(ty) = ty {
                if let Some(dataset) = dataset {
                    let c = Cell { n: r.n as usize, ty, dataset };
                    let mut seen = false;
                    let mut q: usize = 0;
                    while q < v.len()
                        invariant
                            q <= v@.len(),
                            v@ == before,
                            seen ==> v@.contains(c),
                            !seen ==> forall|p: int| 0 <= p < q ==> #[trigger] v@[p] != c,
                        decreases v@.len() - q,
                    {
                        if v[q] == c {
                            assert(v@[q as int] == c);
                            seen = true;
                        }
                        q += 1;
                    }
                    if !seen {
                        v.push(c);
                        proof {
                            assert forall|k: int| 0 <= k < i implies !cell_for(#[trigger] file@[k], c, max_n as int) by {
                                if cell_for(file@[k], c, max_n as int) {
                                    let p = choose|p: int| 0 <= p < before.len() && before[p] == c;
                                    assert(before[p] != c);
                                }
                            }
                            at = at.push(i as int);
                            assert(first_row(file@, c, max_n as int, i as int));
                        }
                    }
                }
            }
        }
        proof {
            assert forall|q: int| 0 <= q < v@.len() implies first_row(file@, #[trigger] v@[q], max_n as int, at[q]) by {
                if q < before.len() {
                    assert(v@[q] == before[q] && at[q] == at0[q]);
                }
            }
            assert forall|q: int, p: int| 0 <= q < p < at.len() implies #[trigger] at[q] < #[trigger] at[p] by {
                assert(at[q] == at0[q]);
            }
            assert forall|k: int, c: Cell| #![trigger cell_for(file@[k], c, max_n as int)] 0 <= k < i + 1 && cell_for(file@[k], c, max_n as int) implies v@.contains(c) by {
                if k < i {
                    assert(before.contains(c));
                    let p = choose|p: int| 0 <= p < before.len() && before[p] == c;
                    assert(v@[p] == c);
                } else {
                    c.ty.names_apart(ty.unwrap());
                    c.dataset.names_apart(dataset.unwrap());
                    if !before.contains(c) {
                        assert(v@[v@.len() - 1] == c);
                    }
                }
            }
        }
        i += 1;
    }
    proof {
        assert(at.len() == v@.len());
    }
    v
}

/// The first of the fields from `i` on with a name, or how many there are.
pub open spec fn field_from(fields: Seq<(Seq<char>, Seq<char>)>, name: Seq<char>, i: int) -> int
    decreases fields.len() - i,
{
    if i >= fields.len() || fields[i].0 == name {
        i
    } else {
        field_from(fields, name, i + 1)
    }
}

/// The first `k` recorded fields whose value was computed otherwise.
pub open spec fn differing(want: Seq<(Seq<char>, Seq<char>)>, got: Seq<(Seq<char>, Seq<char>)>, k: int) -> Seq<(Seq<char>, Seq<char>, Seq<char>)>
    decreases k,
{
    if k <= 0 {
        Seq::empty()
    } else {
        let rest = differing(want, got, k - 1);
        let w = want[k - 1];
        let i = field_from(got, w.0, 0);
        if i < got.len() && got[i].1 != w.1 {
            rest.push((w.0, w.1, got[i].1))
        } else {
            rest
        }
    }
}

/// The computed row is the one of a recorded row.
pub open spec fn answers_to(want: RowText, got: CountRow) -> bool {
    want.ty == got.ty.text() && want.dataset == got.dataset.text() && want.algorithm == got.algorithm.text() && want.n == got.n
}

/// The first of the computed rows from `i` on that answers to a recorded row, or
/// how many there are.
pub open spec fn answer_from(want: RowText, got: Seq<CountRow>, i: int) -> int
    decreases got.len() - i,
{
    if i >= got.len() || answers_to(want, got[i]) {
        i
    } else {
        answer_from(want, got, i + 1)
    }
}

/// How a recorded row fails: not computed at all, or with columns that differ.
pub open spec fn failure_of(want: RowText, got: Seq<CountRow>) -> Option<Option<Seq<(Seq<char>, Seq<char>, Seq<char>)>>> {
    let i = answer_from(want, got, 0);
    if i >= got.len() {
        Some(None)
    } else {
        let d = differing(want.fields, got[i].checked(), want.fields.len() as int);
        if d.len() == 0 {
            None
        } else {
            Some(Some(d))
        }
    }
}

/// The failures of the first `k` recorded rows of at most `max_n` elements: the
/// row and the columns that differ.
pub open spec fn failures_to(want: Seq<RowText>, got: Seq<CountRow>, max_n: nat, k: int) -> Seq<(int, Option<Seq<(Seq<char>, Seq<char>, Seq<char>)>>)>
    decreases k,
{
    if k <= 0 {
        Seq::empty()
    } else {
        let rest = failures_to(want, got, max_n, k - 1);
        if want[k - 1].n > max_n {
            rest
        } else {
            match failure_of(want[k - 1], got) {
                Some(d) => rest.push((k - 1, d)),
                None => rest,
            }
        }
    }
}

/// How many of the first `k` rows have at most `max_n` elements.
pub open spec fn within(want: Seq<RowText>, max_n: nat, k: int) -> int
    decreases k,
{
    if k <= 0 {
        0
    } else {
        within(want, max_n, k - 1) + if want[k - 1].n <= max_n {
            1int
        } else {
            0
        }
    }
}

/// The failures as text.
pub open spec fn failure_views(v: Seq<Failure>) -> Seq<(int, Option<Seq<(Seq<char>, Seq<char>, Seq<char>)>>)> {
    v.map_values(
        |f: Failure|
            (
                f.row as int,
                match f.differences {
                    Some(d) => Some(difference_views(d@)),
                    None => None,
                },
            ),
    )
}

/// The first recorded field that was computed, and how.
fn computed_field(got: &Vec<(&'static str, String)>, name: &str) -> (r: Option<usize>)
    ensures
        r is None <==> field_from(shown(got@), name@, 0) >= got@.len(),
        r matches Some(i) ==> i == field_from(shown(got@), name@, 0),
        r matches Some(i) ==> i < got@.len(),
{
    let n: usize = got.len();
    let ghost s = shown(got@);
    let mut i: usize = 0;
    while i < n
        invariant
            i <= n == got@.len(),
            s == shown(got@),
            field_from(s, name@, 0) == field_from(s, name@, i as int),
        decreases n - i,
    {
        assert(s[i as int].0 == got@[i as int].0@);
        if same_text(got[i].0, name) {
            return Some(i);
        }
        i += 1;
    }
    None
}

/// The recorded fields of a row that were computed otherwise.
fn compare_fields(want: &FileRow, got: &CountRow) -> (r: Vec<Difference>)
    ensures
        difference_views(r@) == differing(want.text().fields, got.checked(), want.text().fields.len() as int),
{
    let gf: Vec<(&'static str, String)> = got.fields();
    differences(&want.fields, &gf)
}

/// The computed row of a recorded one.
fn find_answer(want: &FileRow, got: &Vec<CountRow>) -> (r: Option<usize>)
    ensures
        r is None <==> answer_from(want.text(), got@, 0) >= got@.len(),
        r matches Some(i) ==> i == answer_from(want.text(), got@, 0),
        r matches Some(i) ==> i < got@.len(),
{
    let n: usize = got.len();
    let mut i: usize = 0;
    while i < n
        invariant
            i <= n == got@.len(),
            answer_from(want.text(), got@, 0) == answer_from(want.text(), got@, i as int),
        decreases n - i,
    {
        let g: &CountRow = &got[i];
        if same_text(want.ty.as_str(), g.ty.name()) && same_text(want.dataset.as_str(), g.dataset.name()) && same_text(want.algorithm.as_str(), g.algorithm.name()) && want.n
            == g.n as u64 {
            return Some(i);
        }
        i += 1;
    }
    None
}

/// Holds every recorded row of at most `max_n` elements against the computed
/// ones, and says what differs.
pub fn check_file(file: &Vec<FileRow>, got: &Vec<CountRow>, max_n: u64) -> (r: Report)
    ensures
        r.checked == within(row_texts(file@), max_n as nat, file@.len() as int),
        r.skipped == file@.len() - r.checked,
        failure_views(r.failures@) == failures_to(row_texts(file@), got@, max_n as nat, file@.len() as int),
{
    let n: usize = file.len();
    let ghost want = row_texts(file@);
    let mut checked: usize = 0;
    let mut skipped: usize = 0;
    let mut failures: Vec<Failure> = Vec::new();
    let mut k: usize = 0;
    assert(failure_views(failures@) =~= failures_to(want, got@, max_n as nat, 0));
    while k < n
        invariant
            k <= n == file@.len(),
            want == row_texts(file@),
            checked == within(want, max_n as nat, k as int),
            checked + skipped == k,
            failure_views(failures@) == failures_to(want, got@, max_n as nat, k as int),
        decreases n - k,
    {
        let w: &FileRow = &file[k];
        assert(want[k as int] == w.text());
        let ghost before = failures@;
        if w.n > max_n {
            skipped += 1;
        } else {
            checked += 1;
            match find_answer(w, got) {
                Some(i) => {
                    let d: Vec<Difference> = compare_fields(w, &got[i]);
                    let ghost dv = difference_views(d@);
                    if d.len() > 0 {
                        failures.push(Failure { row: k, differences: Some(d) });
                        assert(failure_views(failures@) =~= failure_views(before).push((k as int, Some(dv))));
                    }
                },
                None => {
                    failures.push(Failure { row: k, differences: None });
                    assert(failure_views(failures@) =~= failure_views(before).push((k as int, None)));
                },
            }
        }
        k += 1;
    }
    Report { checked, skipped, failures }
}

/// Every row is compared or skipped, and no more rows fail than are compared.
pub proof fn report_adds_up(want: Seq<RowText>, got: Seq<CountRow>, max_n: nat, k: int)
    requires
        0 <= k <= want.len(),
    ensures
        0 <= within(want, max_n, k) <= k,
        failures_to(want, got, max_n, k).len() <= within(want, max_n, k),
    decreases k,
{
    if k > 0 {
        report_adds_up(want, got, max_n, k - 1);
    }
}

// ---- the recorded runs ---------------------------------------------------------------------------

/// A recorded run of this library's sort.
pub struct GoldenRow {
    pub ty: String,
    pub dataset: String,
    pub n: u64,
    pub seed: u64,
    pub values: Vec<Field>,
}

/// A recorded run as text.
#[verifier::ext_equal]
pub struct GoldenText {
    pub ty: Seq<char>,
    pub dataset: Seq<char>,
    pub n: nat,
    pub seed: nat,
    pub values: Seq<(Seq<char>, Seq<char>)>,
}

impl GoldenRow {
    /// The run as text.
    pub open spec fn text(&self) -> GoldenText {
        GoldenText {
            ty: self.ty@,
            dataset: self.dataset@,
            n: self.n as nat,
            seed: self.seed as nat,
            values: field_views(self.values@),
        }
    }
}

/// The runs as text.
pub open spec fn golden_texts(rows: Seq<GoldenRow>) -> Seq<GoldenText> {
    rows.map_values(|r: GoldenRow| r.text())
}

/// The columns of a run.
pub open spec fn run_columns() -> Seq<Seq<char>> {
    seq![
        "reads"@,
        "writes"@,
        "compares"@,
        "table_reads"@,
        "table_writes"@,
        "table_bytes"@,
        "key_bytes"@,
        "cmp_flips"@,
        "traffic_bytes"@,
        "l1_misses"@,
        "l2_misses"@,
        "unmapped"@,
        "aux_peak_bytes"@,
        "aux_allocs"@,
        "max_depth"@,
        "fallbacks"@,
        "bad_parts"@,
        "route"@,
        "r_sorted"@,
        "r_reverse"@,
        "r_runs"@,
        "r_displaced"@,
        "r_radix"@,
        "giveups"@,
        "splits"@,
        "split_retries"@,
        "part_sorts"@,
        "dict_tries"@,
        "dict_hits"@,
        "plan_retries"@,
        "radix_passes"@,
        "passes_skipped"@,
        "order_hash"@,
        "trace_hash"@,
    ]
}

/// The columns of a run.
fn all_run_columns() -> (r: Vec<&'static str>)
    ensures
        names_of(r@) == run_columns(),
{
    let mut r: Vec<&'static str> = Vec::new();
    r.push("reads");
    r.push("writes");
    r.push("compares");
    r.push("table_reads");
    r.push("table_writes");
    r.push("table_bytes");
    r.push("key_bytes");
    r.push("cmp_flips");
    r.push("traffic_bytes");
    r.push("l1_misses");
    r.push("l2_misses");
    r.push("unmapped");
    r.push("aux_peak_bytes");
    r.push("aux_allocs");
    r.push("max_depth");
    r.push("fallbacks");
    r.push("bad_parts");
    r.push("route");
    r.push("r_sorted");
    r.push("r_reverse");
    r.push("r_runs");
    r.push("r_displaced");
    r.push("r_radix");
    r.push("giveups");
    r.push("splits");
    r.push("split_retries");
    r.push("part_sorts");
    r.push("dict_tries");
    r.push("dict_hits");
    r.push("plan_retries");
    r.push("radix_passes");
    r.push("passes_skipped");
    r.push("order_hash");
    r.push("trace_hash");
    assert(names_of(r@) =~= run_columns());
    r
}

/// The line reaches as far as the first `k` of the columns, where the header has
/// them.
pub open spec fn reaches(header: Seq<Seq<char>>, columns: Seq<Seq<char>>, line: Seq<Seq<char>>, k: int) -> bool
    decreases k,
{
    if k <= 0 {
        true
    } else {
        let i = column_from(header, columns[k - 1], 0);
        reaches(header, columns, line, k - 1) && (i >= header.len() || i < line.len())
    }
}

/// The line reaches as far as the given columns.
fn line_reaches(header: &Vec<String>, columns: &Vec<&'static str>, line: &Vec<String>) -> (r: bool)
    ensures
        r == reaches(views_of(header@), names_of(columns@), views_of(line@), columns@.len() as int),
{
    let n: usize = columns.len();
    let mut r = true;
    let mut k: usize = 0;
    let ghost h = views_of(header@);
    let ghost l = views_of(line@);
    let ghost c = names_of(columns@);
    while k < n
        invariant
            k <= n == columns@.len(),
            h == views_of(header@),
            l == views_of(line@),
            c == names_of(columns@),
            r == reaches(h, c, l, k as int),
        decreases n - k,
    {
        let name: &'static str = columns[k];
        assert(c[k as int] == name@);
        if let Some(i) = column(header, name) {
            if i >= line.len() {
                r = false;
            }
        }
        k += 1;
    }
    r
}

/// The recorded run of a line; `None` where the line is of another sort, or of a
/// run that failed. Only the columns that are read have to be there.
pub open spec fn golden_of(header: Seq<Seq<char>>, line: Seq<Seq<char>>) -> Result<Option<GoldenText>, FileError> {
    let ca = column_from(header, "algorithm"@, 0);
    let cok = column_from(header, "ok"@, 0);
    let cn = column_from(header, "n"@, 0);
    let cs = column_from(header, "seed"@, 0);
    let ct = column_from(header, "type"@, 0);
    let cd = column_from(header, "dataset"@, 0);
    if ca >= line.len() {
        Err(FileError::ShortLine)
    } else if line[ca] != "brainsort"@ {
        Ok(None)
    } else if cok >= line.len() {
        Err(FileError::ShortLine)
    } else if line[cok] != "1"@ {
        Ok(None)
    } else if !reaches(header, run_columns(), line, 34) || ct >= line.len() || cd >= line.len() || cn >= line.len() || cs >= line.len() {
        Err(FileError::ShortLine)
    } else {
        match (number_of(line[cn]), number_of(line[cs])) {
            (Some(n), Some(seed)) => Ok(Some(GoldenText { ty: line[ct], dataset: line[cd], n, seed, values: picked_fields(header, run_columns(), line, 34) })),
            _ => Err(FileError::BadNumber),
        }
    }
}

/// The recorded runs of the first `k` lines, or what is wrong with the first bad
/// one.
pub open spec fn golden_to(header: Seq<Seq<char>>, lines: Seq<Seq<Seq<char>>>, k: int) -> Result<Seq<GoldenText>, FileError>
    decreases k,
{
    if k <= 0 {
        Ok(Seq::empty())
    } else {
        match golden_to(header, lines, k - 1) {
            Ok(rows) => match golden_of(header, lines[k - 1]) {
                Ok(Some(r)) => Ok(rows.push(r)),
                Ok(None) => Ok(rows),
                Err(e) => Err(e),
            },
            Err(e) => Err(e),
        }
    }
}

/// The header has a column.
pub open spec fn has_column(header: Seq<Seq<char>>, name: Seq<char>) -> bool {
    column_from(header, name, 0) < header.len()
}

/// What a file of recorded runs holds.
pub open spec fn golden_rows(b: Seq<u8>) -> Result<Seq<GoldenText>, FileError> {
    if !plain(b) {
        Err(FileError::NotText)
    } else if b.len() == 0 {
        Err(FileError::Empty)
    } else {
        let all = lines_from(b, 0);
        let header = texts_of(pieces(all[0], 44));
        let lines = rows_of(all.skip(1));
        if has_column(header, "type"@) && has_column(header, "dataset"@) && has_column(header, "algorithm"@) && has_column(header, "n"@) && has_column(header, "seed"@)
            && has_column(header, "ok"@) {
            golden_to(header, lines, lines.len() as int)
        } else {
            Err(FileError::NoColumn)
        }
    }
}

/// What is wrong with a line is wrong with the file.
proof fn lemma_golden_stop(header: Seq<Seq<char>>, lines: Seq<Seq<Seq<char>>>, k: int, n: int)
    requires
        0 <= k <= n,
        golden_to(header, lines, k) is Err,
    ensures
        golden_to(header, lines, n) == golden_to(header, lines, k),
    decreases n - k,
{
    if k < n {
        lemma_golden_stop(header, lines, k, n - 1);
    }
}

/// The recorded runs of this library's sort.
pub fn parse_golden(b: &[u8]) -> (r: Result<Vec<GoldenRow>, FileError>)
    ensures
        match r {
            Ok(rows) => golden_rows(b@) == Ok::<Seq<GoldenText>, FileError>(golden_texts(rows@)),
            Err(e) => golden_rows(b@) == Err::<Seq<GoldenText>, FileError>(e),
        },
{
    if !is_plain(b) {
        return Err(FileError::NotText);
    }
    let table: Table = match parse_table(b) {
        Some(t) => t,
        None => {
            return Err(FileError::Empty);
        },
    };
    let ghost header = views_of(table.header@);
    let ghost lines = row_views(table.rows@);
    let (ct, cd, ca) = match (column(&table.header, "type"), column(&table.header, "dataset"), column(&table.header, "algorithm")) {
        (Some(t), Some(d), Some(a)) => (t, d, a),
        _ => {
            return Err(FileError::NoColumn);
        },
    };
    let (cn, cs, cok) = match (column(&table.header, "n"), column(&table.header, "seed"), column(&table.header, "ok")) {
        (Some(n), Some(s), Some(k)) => (n, s, k),
        _ => {
            return Err(FileError::NoColumn);
        },
    };
    let h: usize = table.header.len();
    let n: usize = table.rows.len();
    let columns: Vec<&'static str> = all_run_columns();
    assert(names_of(columns@).len() == columns@.len());
    let mut rows: Vec<GoldenRow> = Vec::new();
    let mut k: usize = 0;
    assert(golden_texts(rows@) =~= Seq::<GoldenText>::empty());
    while k < n
        invariant
            k <= n == table.rows@.len(),
            h == table.header@.len(),
            header == views_of(table.header@),
            lines == row_views(table.rows@),
            names_of(columns@) == run_columns(),
            columns@.len() == 34,
            golden_rows(b@) == golden_to(header, lines, n as int),
            ct == column_from(header, "type"@, 0) && ct < h,
            cd == column_from(header, "dataset"@, 0) && cd < h,
            ca == column_from(header, "algorithm"@, 0) && ca < h,
            cn == column_from(header, "n"@, 0) && cn < h,
            cs == column_from(header, "seed"@, 0) && cs < h,
            cok == column_from(header, "ok"@, 0) && cok < h,
            golden_to(header, lines, k as int) == Ok::<Seq<GoldenText>, FileError>(golden_texts(rows@)),
        decreases n - k,
    {
        let line: &Vec<String> = &table.rows[k];
        let ghost before = rows@;
        let ghost l = views_of(line@);
        assert(lines[k as int] == l);
        assert(l.len() == line@.len());
        let m: usize = line.len();
        assert(forall|i: int| 0 <= i < l.len() ==> #[trigger] l[i] == line@[i]@);
        if ca >= m {
            proof {
                lemma_golden_stop(header, lines, k + 1, n as int);
            }
            return Err(FileError::ShortLine);
        }
        if same_text(line[ca].as_str(), "brainsort") {
            if cok >= m {
                proof {
                    lemma_golden_stop(header, lines, k + 1, n as int);
                }
                return Err(FileError::ShortLine);
            }
        }
        if same_text(line[ca].as_str(), "brainsort") && same_text(line[cok].as_str(), "1") {
            if !line_reaches(&table.header, &columns, line) || ct >= m || cd >= m || cn >= m || cs >= m {
                proof {
                    lemma_golden_stop(header, lines, k + 1, n as int);
                }
                return Err(FileError::ShortLine);
            }
            match (parse_number(line[cn].as_str()), parse_number(line[cs].as_str())) {
                (Some(x), Some(y)) => {
                    let row = GoldenRow {
                        ty: line[ct].clone(),
                        dataset: line[cd].clone(),
                        n: x,
                        seed: y,
                        values: pick_fields(&table.header, &columns, line),
                    };
                    assert(golden_of(header, l) == Ok::<Option<GoldenText>, FileError>(Some(row.text())));
                    rows.push(row);
                    assert(golden_texts(rows@) =~= golden_texts(before).push(row.text()));
                },
                _ => {
                    proof {
                        lemma_golden_stop(header, lines, k + 1, n as int);
                    }
                    return Err(FileError::BadNumber);
                },
            }
        }
        k += 1;
    }
    Ok(rows)
}

/// The recorded columns of a run that come out otherwise.
pub fn check_row(row: &GoldenRow, det: &DetRecord) -> (r: Vec<Difference>)
    ensures
        difference_views(r@) == differing(row.text().values, det.columns(), row.text().values.len() as int),
{
    let gf: Vec<(&'static str, String)> = det.values();
    differences(&row.values, &gf)
}

/// The recorded fields that were computed otherwise.
fn differences(want: &Vec<Field>, got: &Vec<(&'static str, String)>) -> (r: Vec<Difference>)
    ensures
        difference_views(r@) == differing(field_views(want@), shown(got@), want@.len() as int),
{
    let n: usize = want.len();
    let ghost w = field_views(want@);
    let ghost g = shown(got@);
    let mut r: Vec<Difference> = Vec::new();
    let mut k: usize = 0;
    assert(difference_views(r@) =~= differing(w, g, 0));
    while k < n
        invariant
            k <= n == want@.len() == w.len(),
            w == field_views(want@),
            g == shown(got@),
            difference_views(r@) == differing(w, g, k as int),
        decreases n - k,
    {
        let f: &Field = &want[k];
        let ghost before = r@;
        assert(w[k as int] == (f.name@, f.value@));
        if let Some(i) = computed_field(got, f.name.as_str()) {
            assert(g[i as int].1 == got@[i as int].1@);
            if !same_text(got[i].1.as_str(), f.value.as_str()) {
                r.push(Difference { column: f.name.clone(), recorded: f.value.clone(), computed: got[i].1.clone() });
                assert(difference_views(r@) =~= difference_views(before).push((f.name@, f.value@, got@[i as int].1@)));
            }
        }
        k += 1;
    }
    r
}

/// A run that comes out as it was recorded shows no difference.
pub proof fn same_run_has_no_differences(want: Seq<(Seq<char>, Seq<char>)>, k: int)
    requires
        0 <= k <= want.len(),
        forall|i: int, j: int| 0 <= i < j < want.len() ==> (#[trigger] want[i]).0 != (#[trigger] want[j]).0,
    ensures
        differing(want, want, k).len() == 0,
    decreases k,
{
    if k > 0 {
        same_run_has_no_differences(want, k - 1);
        lemma_field_found(want, k - 1, 0);
    }
}

proof fn lemma_field_found(want: Seq<(Seq<char>, Seq<char>)>, k: int, i: int)
    requires
        0 <= i <= k < want.len(),
        forall|a: int, b: int| 0 <= a < b < want.len() ==> (#[trigger] want[a]).0 != (#[trigger] want[b]).0,
    ensures
        field_from(want, want[k].0, i) == k,
    decreases k - i,
{
    if i < k {
        assert(want[i].0 != want[k].0);
        lemma_field_found(want, k, i + 1);
    }
}

// ---- two files -----------------------------------------------------------------------------------

/// The value of a field; empty where it is not there.
pub open spec fn value_of(fields: Seq<(Seq<char>, Seq<char>)>, name: Seq<char>) -> Seq<char> {
    let i = field_from(fields, name, 0);
    if i < fields.len() {
        fields[i].1
    } else {
        Seq::empty()
    }
}

/// The columns that both files have.
pub open spec fn shared_columns() -> Seq<Seq<char>> {
    seq!["compares"@, "cmp_flips"@, "aux_peak_bytes"@]
}

/// The first `k` shared columns in which two rows differ: the name, the value
/// here and the value there.
pub open spec fn unshared(a: Seq<(Seq<char>, Seq<char>)>, b: Seq<(Seq<char>, Seq<char>)>, k: int) -> Seq<(Seq<char>, Seq<char>, Seq<char>)>
    decreases k,
{
    if k <= 0 {
        Seq::empty()
    } else {
        let rest = unshared(a, b, k - 1);
        let c = shared_columns()[k - 1];
        if value_of(a, c) != value_of(b, c) {
            rest.push((c, value_of(a, c), value_of(b, c)))
        } else {
            rest
        }
    }
}

/// The first of the recorded runs from `i` on of the cell of a row, or how many
/// there are.
pub open spec fn run_from(want: RowText, golden: Seq<GoldenText>, i: int) -> int
    decreases golden.len() - i,
{
    if i >= golden.len() || golden[i].ty == want.ty && golden[i].dataset == want.dataset && golden[i].n == want.n {
        i
    } else {
        run_from(want, golden, i + 1)
    }
}

/// How the first `k` rows of this library's sort fail to be the recorded runs.
pub open spec fn drifted_to(want: Seq<RowText>, golden: Seq<GoldenText>, max_n: nat, k: int) -> Seq<(int, Option<Seq<(Seq<char>, Seq<char>, Seq<char>)>>)>
    decreases k,
{
    if k <= 0 {
        Seq::empty()
    } else {
        let rest = drifted_to(want, golden, max_n, k - 1);
        let w = want[k - 1];
        if w.algorithm != "brainsort"@ || w.n > max_n {
            rest
        } else {
            let i = run_from(w, golden, 0);
            if i >= golden.len() {
                rest.push((k - 1, None))
            } else if unshared(w.fields, golden[i].values, 3).len() > 0 {
                rest.push((k - 1, Some(unshared(w.fields, golden[i].values, 3))))
            } else {
                rest
            }
        }
    }
}

fn field_value(fields: &Vec<Field>, name: &str) -> (r: String)
    ensures
        r@ == value_of(field_views(fields@), name@),
{
    let n: usize = fields.len();
    let ghost s = field_views(fields@);
    let mut i: usize = 0;
    while i < n
        invariant
            i <= n == fields@.len(),
            s == field_views(fields@),
            field_from(s, name@, 0) == field_from(s, name@, i as int),
        decreases n - i,
    {
        assert(s[i as int] == (fields@[i as int].name@, fields@[i as int].value@));
        if same_text(fields[i].name.as_str(), name) {
            return fields[i].value.clone();
        }
        i += 1;
    }
    let r: String = String::new();
    assert(r@ =~= Seq::<char>::empty());
    r
}

fn compare_shared(a: &Vec<Field>, b: &Vec<Field>) -> (r: Vec<Difference>)
    ensures
        difference_views(r@) == unshared(field_views(a@), field_views(b@), 3),
{
    let mut r: Vec<Difference> = Vec::new();
    let ghost x = field_views(a@);
    let ghost y = field_views(b@);
    let mut k: usize = 0;
    assert(difference_views(r@) =~= unshared(x, y, 0));
    while k < 3
        invariant
            k <= 3,
            x == field_views(a@),
            y == field_views(b@),
            difference_views(r@) == unshared(x, y, k as int),
        decreases 3 - k,
    {
        let name: &'static str = match k {
            0 => "compares",
            1 => "cmp_flips",
            _ => "aux_peak_bytes",
        };
        assert(name@ == shared_columns()[k as int]);
        let u: String = field_value(a, name);
        let v: String = field_value(b, name);
        let ghost before = r@;
        let ghost fresh = (name@, u@, v@);
        if !same_text(u.as_str(), v.as_str()) {
            r.push(Difference { column: String::from_str(name), recorded: u, computed: v });
            assert(difference_views(r@) =~= difference_views(before).push(fresh));
        }
        k += 1;
    }
    r
}

fn find_run(want: &FileRow, golden: &Vec<GoldenRow>) -> (r: Option<usize>)
    ensures
        r is None <==> run_from(want.text(), golden_texts(golden@), 0) >= golden@.len(),
        r matches Some(i) ==> i == run_from(want.text(), golden_texts(golden@), 0),
        r matches Some(i) ==> i < golden@.len(),
{
    let n: usize = golden.len();
    let ghost g = golden_texts(golden@);
    let mut i: usize = 0;
    while i < n
        invariant
            i <= n == golden@.len(),
            g == golden_texts(golden@),
            run_from(want.text(), g, 0) == run_from(want.text(), g, i as int),
        decreases n - i,
    {
        let q: &GoldenRow = &golden[i];
        assert(g[i as int] == q.text());
        if same_text(q.ty.as_str(), want.ty.as_str()) && same_text(q.dataset.as_str(), want.dataset.as_str()) && q.n == want.n {
            return Some(i);
        }
        i += 1;
    }
    None
}

/// Holds the rows of this library's sort, of at most `max_n` elements, to the
/// recorded runs on the columns that both files have.
pub fn hold_to_golden(file: &Vec<FileRow>, golden: &Vec<GoldenRow>, max_n: u64) -> (r: Vec<Failure>)
    ensures
        failure_views(r@) == drifted_to(row_texts(file@), golden_texts(golden@), max_n as nat, file@.len() as int),
{
    let n: usize = file.len();
    let ghost want = row_texts(file@);
    let ghost g = golden_texts(golden@);
    let mut r: Vec<Failure> = Vec::new();
    let mut k: usize = 0;
    assert(failure_views(r@) =~= drifted_to(want, g, max_n as nat, 0));
    while k < n
        invariant
            k <= n == file@.len(),
            want == row_texts(file@),
            g == golden_texts(golden@),
            failure_views(r@) == drifted_to(want, g, max_n as nat, k as int),
        decreases n - k,
    {
        let w: &FileRow = &file[k];
        assert(want[k as int] == w.text());
        let ghost before = r@;
        if same_text(w.algorithm.as_str(), "brainsort") && w.n <= max_n {
            match find_run(w, golden) {
                Some(i) => {
                    assert(g[i as int] == golden@[i as int].text());
                    let d: Vec<Difference> = compare_shared(&w.fields, &golden[i].values);
                    let ghost dv = difference_views(d@);
                    if d.len() > 0 {
                        r.push(Failure { row: k, differences: Some(d) });
                        assert(failure_views(r@) =~= failure_views(before).push((k as int, Some(dv))));
                    }
                },
                None => {
                    r.push(Failure { row: k, differences: None });
                    assert(failure_views(r@) =~= failure_views(before).push((k as int, None)));
                },
            }
        }
        k += 1;
    }
    r
}

} // verus!
