//! Tables as text: lines of fields with commas between them, the first line the
//! names of the columns.
use crate::bench::render::same_text;
use crate::order::{lemma_filter_empty, lemma_filter_take};
use vstd::prelude::*;

verus! {

/// The first place from `i` on where `sep` stands, or the length.
pub open spec fn find_from(s: Seq<u8>, sep: u8, i: int) -> int
    decreases s.len() - i,
{
    if i >= s.len() || s[i] == sep {
        i
    } else {
        find_from(s, sep, i + 1)
    }
}

/// The pieces of `s` from `i` on between the separators.
pub open spec fn pieces_from(s: Seq<u8>, sep: u8, i: int) -> Seq<Seq<u8>>
    decreases s.len() - i,
{
    if i > s.len() {
        Seq::empty()
    } else {
        proof {
            lemma_find_from(s, sep, i);
        }
        let j = find_from(s, sep, i);
        if j >= s.len() {
            seq![s.subrange(i, s.len() as int)]
        } else {
            seq![s.subrange(i, j)] + pieces_from(s, sep, j + 1)
        }
    }
}

pub proof fn lemma_find_from(s: Seq<u8>, sep: u8, i: int)
    ensures
        find_from(s, sep, i) >= i,
        i <= s.len() ==> find_from(s, sep, i) <= s.len(),
    decreases s.len() - i,
{
    if i < s.len() && s[i] != sep {
        lemma_find_from(s, sep, i + 1);
    }
}

/// The pieces of `s` between the separators.
pub open spec fn pieces(s: Seq<u8>, sep: u8) -> Seq<Seq<u8>> {
    pieces_from(s, sep, 0)
}

/// The bytes are characters of the ASCII code.
pub open spec fn plain(s: Seq<u8>) -> bool {
    forall|i: int| 0 <= i < s.len() ==> #[trigger] s[i] < 0x80
}

/// Whether the bytes are characters of the ASCII code.
pub fn is_plain(b: &[u8]) -> (r: bool)
    ensures
        r == plain(b@),
{
    let n: usize = b.len();
    let mut i: usize = 0;
    while i < n
        invariant
            i <= n == b@.len(),
            plain(b@.take(i as int)),
        decreases n - i,
    {
        if b[i] >= 0x80 {
            return false;
        }
        i += 1;
        assert forall|k: int| 0 <= k < i implies #[trigger] b@.take(i as int)[k] < 0x80 by {
            if k < i - 1 {
                assert(b@.take(i - 1)[k] < 0x80);
            }
        }
    }
    assert(b@.take(n as int) =~= b@);
    true
}

/// Bytes as text, a character for each.
pub open spec fn text_of(s: Seq<u8>) -> Seq<char> {
    s.map_values(|b: u8| b as char)
}

/// Pieces as text.
pub open spec fn texts_of(s: Seq<Seq<u8>>) -> Seq<Seq<char>> {
    s.map_values(|x: Seq<u8>| text_of(x))
}

/// Strings as text.
pub open spec fn views_of(s: Seq<String>) -> Seq<Seq<char>> {
    s.map_values(|x: String| x@)
}

fn find(b: &[u8], sep: u8, i: usize) -> (r: usize)
    requires
        i <= b@.len(),
    ensures
        r == find_from(b@, sep, i as int),
        i <= r <= b@.len(),
        r < b@.len() ==> b@[r as int] == sep,
{
    let n: usize = b.len();
    let mut j: usize = i;
    while j < n && b[j] != sep
        invariant
            i <= j <= n == b@.len(),
            find_from(b@, sep, i as int) == find_from(b@, sep, j as int),
        decreases n - j,
    {
        j += 1;
    }
    j
}

/// The bytes of `[lo, hi)` as text.
fn text(b: &[u8], lo: usize, hi: usize) -> (r: String)
    requires
        lo <= hi <= b@.len(),
    ensures
        r@ == text_of(b@.subrange(lo as int, hi as int)),
{
    let mut r: String = String::new();
    let mut i: usize = lo;
    assert(r@ =~= text_of(b@.subrange(lo as int, lo as int)));
    while i < hi
        invariant
            lo <= i <= hi <= b@.len(),
            r@ == text_of(b@.subrange(lo as int, i as int)),
        decreases hi - i,
    {
        r.push(b[i] as char);
        i += 1;
        assert(r@ =~= text_of(b@.subrange(lo as int, i as int)));
    }
    r
}

/// The fields of the line `[lo, hi)`.
fn fields(b: &[u8], lo: usize, hi: usize) -> (r: Vec<String>)
    requires
        lo <= hi <= b@.len(),
    ensures
        views_of(r@) == texts_of(pieces(b@.subrange(lo as int, hi as int), 44)),
{
    let line: &[u8] = vstd::slice::slice_subrange(b, lo, hi);
    let n: usize = line.len();
    let ghost s = line@;
    let mut r: Vec<String> = Vec::new();
    let mut i: usize = 0;
    let mut more = true;
    assert(views_of(r@) + texts_of(pieces_from(s, 44, 0)) =~= texts_of(pieces(s, 44)));
    while more
        invariant
            s == line@,
            n == s.len(),
            more ==> i <= n,
            more ==> views_of(r@) + texts_of(pieces_from(s, 44, i as int)) == texts_of(pieces(s, 44)),
            !more ==> views_of(r@) == texts_of(pieces(s, 44)),
        decreases
            if more {
                n - i + 1
            } else {
                0
            },
    {
        let ghost before = views_of(r@);
        let j: usize = find(line, 44, i);
        let t: String = text(line, i, j);
        let ghost tv = t@;
        r.push(t);
        proof {
            assert(views_of(r@) =~= before.push(tv));
            if j < n {
                let rest = pieces_from(s, 44, j + 1);
                assert(texts_of(pieces_from(s, 44, i as int)) =~= seq![tv] + texts_of(rest));
                assert(before + (seq![tv] + texts_of(rest)) =~= before.push(tv) + texts_of(rest));
            } else {
                assert(texts_of(pieces_from(s, 44, i as int)) =~= seq![tv]);
                assert(before + seq![tv] =~= before.push(tv));
            }
        }
        if j < n {
            i = j + 1;
        } else {
            more = false;
        }
    }
    r
}

/// A line that ended without the carriage return before its end.
pub open spec fn without_return(s: Seq<u8>) -> Seq<u8> {
    if s.len() > 0 && s.last() == 13 {
        s.drop_last()
    } else {
        s
    }
}

/// The lines of a text from `i` on: what stands before each line feed, without a
/// carriage return right before it, and what stands after the last one, where
/// that is not nothing.
pub open spec fn lines_from(s: Seq<u8>, i: int) -> Seq<Seq<u8>>
    decreases s.len() - i,
{
    if i >= s.len() {
        Seq::empty()
    } else {
        proof {
            lemma_find_from(s, 10, i);
        }
        let j = find_from(s, 10, i);
        if j >= s.len() {
            seq![s.subrange(i, s.len() as int)]
        } else {
            seq![without_return(s.subrange(i, j))] + lines_from(s, j + 1)
        }
    }
}

/// A table.
pub struct Table {
    /// The names of the columns.
    pub header: Vec<String>,
    /// The fields of each line.
    pub rows: Vec<Vec<String>>,
}

/// The rows of some lines: those that are not empty, cut into fields.
pub open spec fn rows_of(lines: Seq<Seq<u8>>) -> Seq<Seq<Seq<char>>> {
    lines.filter(|l: Seq<u8>| l.len() > 0).map_values(|l: Seq<u8>| texts_of(pieces(l, 44)))
}

/// The rows of a table as text.
pub open spec fn row_views(rows: Seq<Vec<String>>) -> Seq<Seq<Seq<char>>> {
    rows.map_values(|r: Vec<String>| views_of(r@))
}

/// The table of a text. `None` where there is no line.
pub fn parse_table(b: &[u8]) -> (r: Option<Table>)
    ensures
        r is None <==> b@.len() == 0,
        r matches Some(t) ==> {
            let lines = lines_from(b@, 0);
            &&& lines.len() > 0
            &&& views_of(t.header@) == texts_of(pieces(lines[0], 44))
            &&& row_views(t.rows@) == rows_of(lines.skip(1))
        },
{
    let n: usize = b.len();
    if n == 0 {
        return None;
    }
    let (h, from) = cut_line(b, 0);
    let header: Vec<String> = fields(b, 0, h);
    let mut rows: Vec<Vec<String>> = Vec::new();
    let mut i: usize = from;
    let ghost lines = lines_from(b@, 0);
    let ghost rest = lines_from(b@, from as int);
    assert(lines.skip(1) =~= rest);
    proof {
        lemma_filter_empty::<Seq<u8>>(|l: Seq<u8>| l.len() > 0);
        assert(rest.take(0) =~= Seq::<Seq<u8>>::empty());
        assert(row_views(rows@) =~= rows_of(rest.take(0)));
    }
    let ghost mut k: int = 0;
    assert(rest.skip(0) =~= rest);
    while i < n
        invariant
            n == b@.len(),
            0 <= k <= rest.len(),
            i <= n,
            rest.skip(k) == lines_from(b@, i as int),
            row_views(rows@) == rows_of(rest.take(k)),
        decreases n - i,
    {
        let (end, next) = cut_line(b, i);
        let ghost l = b@.subrange(i as int, end as int);
        let ghost f = |l: Seq<u8>| l.len() > 0;
        proof {
            assert(rest.skip(k)[0] == l);
            assert(rest.skip(k).len() >= 1);
            assert(k < rest.len());
            assert(rest[k] == l);
            lemma_filter_take(rest, k, f);
            assert(rest.skip(k).skip(1) =~= rest.skip(k + 1));
            assert(rest.skip(k).skip(1) =~= lines_from(b@, next as int));
        }
        if end > i {
            let row: Vec<String> = fields(b, i, end);
            let ghost before = rows@;
            rows.push(row);
            proof {
                let g = |l: Seq<u8>| texts_of(pieces(l, 44));
                assert(row_views(rows@) =~= row_views(before).push(views_of(row@)));
                assert(rest.take(k).filter(f).push(l).map_values(g) =~= rest.take(k).filter(f).map_values(g).push(g(l)));
            }
        }
        proof {
            k = k + 1;
        }
        i = next;
    }
    proof {
        assert(rest.skip(k).len() == 0);
        assert(rest.take(k) =~= rest);
    }
    Some(Table { header, rows })
}

/// Where the line from `i` on ends, and where the next one begins.
fn cut_line(b: &[u8], i: usize) -> (r: (usize, usize))
    requires
        i < b@.len(),
    ensures
        i <= r.0 <= b@.len(),
        i < r.1 <= b@.len(),
        lines_from(b@, i as int) == seq![b@.subrange(i as int, r.0 as int)] + lines_from(b@, r.1 as int),
{
    let n: usize = b.len();
    let j: usize = find(b, 10, i);
    if j < n {
        let ghost s = b@.subrange(i as int, j as int);
        if j > i && b[j - 1] == 13 {
            assert(s.last() == 13);
            assert(s.drop_last() =~= b@.subrange(i as int, j - 1));
            (j - 1, j + 1)
        } else {
            assert(s.len() > 0 ==> s.last() == b@[j - 1]);
            (j, j + 1)
        }
    } else {
        assert(seq![b@.subrange(i as int, n as int)] + lines_from(b@, n as int) =~= seq![b@.subrange(i as int, n as int)]);
        (n, n)
    }
}

/// The first column from `i` on with a name, or how many there are.
pub open spec fn column_from(header: Seq<Seq<char>>, name: Seq<char>, i: int) -> int
    decreases header.len() - i,
{
    if i >= header.len() || header[i] == name {
        i
    } else {
        column_from(header, name, i + 1)
    }
}

/// The column with a name.
pub fn column(header: &Vec<String>, name: &str) -> (r: Option<usize>)
    ensures
        r is None <==> column_from(views_of(header@), name@, 0) >= header@.len(),
        r matches Some(i) ==> i == column_from(views_of(header@), name@, 0),
        r matches Some(i) ==> i < header@.len() && header@[i as int]@ == name@,
{
    let n: usize = header.len();
    let ghost h = views_of(header@);
    let mut i: usize = 0;
    while i < n
        invariant
            i <= n == header@.len(),
            h == views_of(header@),
            column_from(h, name@, 0) == column_from(h, name@, i as int),
        decreases n - i,
    {
        assert(h[i as int] == header@[i as int]@);
        if same_text(header[i].as_str(), name) {
            return Some(i);
        }
        i += 1;
    }
    None
}

/// The number that the digits of `s` from `i` on stand for, after `acc`. `None`
/// where one is no digit.
pub open spec fn digits_from(s: Seq<char>, i: int, acc: nat) -> Option<nat>
    decreases s.len() - i,
{
    if i >= s.len() {
        Some(acc)
    } else if '0' <= s[i] && s[i] <= '9' {
        digits_from(s, i + 1, acc * 10 + (s[i] as nat - 48) as nat)
    } else {
        None
    }
}

/// The number that a text stands for: digits, a plus sign before them or not,
/// and no more than a word holds.
pub open spec fn number_of(s: Seq<char>) -> Option<nat> {
    let i: int = if s.len() > 0 && s[0] == '+' {
        1
    } else {
        0
    };
    if s.len() <= i {
        None
    } else {
        match digits_from(s, i, 0) {
            Some(x) => if x <= u64::MAX {
                Some(x)
            } else {
                None
            },
            None => None,
        }
    }
}

/// Digits only add to a number.
proof fn lemma_digits_grow(s: Seq<char>, i: int, acc: nat)
    ensures
        digits_from(s, i, acc) matches Some(x) ==> x >= acc,
    decreases s.len() - i,
{
    if i < s.len() && '0' <= s[i] && s[i] <= '9' {
        lemma_digits_grow(s, i + 1, acc * 10 + (s[i] as nat - 48) as nat);
    }
}

/// The number that a text stands for.
pub fn parse_number(s: &str) -> (r: Option<u64>)
    ensures
        r matches Some(x) ==> number_of(s@) == Some(x as nat),
        r is None ==> number_of(s@) is None,
{
    let n: usize = s.unicode_len();
    let start: usize = if n > 0 && s.get_char(0) == '+' {
        1
    } else {
        0
    };
    if n <= start {
        return None;
    }
    let mut acc: u64 = 0;
    let mut i: usize = start;
    while i < n
        invariant
            start <= i <= n == s@.len(),
            start < n,
            start == if s@.len() > 0 && s@[0] == '+' {
                1int
            } else {
                0
            },
            digits_from(s@, start as int, 0) == digits_from(s@, i as int, acc as nat),
        decreases n - i,
    {
        let c: char = s.get_char(i);
        if !('0' <= c && c <= '9') {
            return None;
        }
        let d: u64 = c as u64 - 48;
        proof {
            lemma_digits_grow(s@, i + 1, acc as nat * 10 + d as nat);
        }
        if acc > (u64::MAX - d) / 10 {
            assert(acc * 10 + d > u64::MAX);
            return None;
        }
        acc = acc * 10 + d;
        i += 1;
    }
    Some(acc)
}

} // verus!
