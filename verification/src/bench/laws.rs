//! What the measurements promise: numbers, texts, tables, hashes and elements, said
//! without the functions that compute them.
use crate::bench::{
    first_difference, order_hash_to, sort_fault, DblItem, Fault, I64Item, Item, Item2, StrItem,
};
use crate::bench::csv::{
    column_from, digits_from, find_from, lemma_find_from, lines_from, number_of, pieces, pieces_from,
    rows_of, text_of, texts_of,
};
use crate::bench::render::{decimal_of, digit_of, escaped, escaped_to, hex_of, padded_of};
use crate::bench::timing::{
    code_files, code_mix, code_mixed, day_number, days_before_month, month_days, utc_of,
    year_adds_up, Date, SourceFile, CODE_OFFSET,
};
use crate::key::laws::bytes_in_order;
use crate::key::slots::SLOT_MAX;
use crate::record::lemma_one_chunk;
use crate::text::text_chunks_order;
use crate::view::elem_le;
use vstd::arithmetic::div_mod::{lemma_div_denominator, lemma_fundamental_div_mod};
use vstd::arithmetic::power::{lemma_pow0, lemma_pow1, lemma_pow_adds, lemma_pow_positive, pow};
use vstd::prelude::*;

verus! {

// ---- numbers -------------------------------------------------------------------------------------

/// Digit `i + 1` of a number is digit `i` of the number without its last digit.
proof fn lemma_next_digit(n: nat, base: nat, i: nat)
    requires
        base > 1,
    ensures
        n as int / pow(base as int, i + 1) == (n / base) as int / pow(base as int, i),
{
    lemma_pow_positive(base as int, i);
    lemma_pow_adds(base as int, 1, i);
    lemma_pow1(base as int);
    lemma_div_denominator(n as int, base as int, pow(base as int, i));
}

/// The last digit.
proof fn lemma_last_digit(n: nat, base: nat)
    requires
        base > 1,
    ensures
        n as int / pow(base as int, 0) == n,
{
    lemma_pow0(base as int);
}

/// One digit more.
proof fn lemma_bound_step(n: nat, base: nat, len: nat)
    requires
        base > 1,
    ensures
        (n / base) < pow(base as int, len) ==> n < pow(base as int, len + 1),
        pow(base as int, len) <= n / base ==> pow(base as int, len + 1) <= n,
{
    lemma_pow_adds(base as int, 1, len);
    lemma_pow1(base as int);
    lemma_fundamental_div_mod(n as int, base as int);
    let (q, p, b) = (n as int / base as int, pow(base as int, len), base as int);
    if q < p {
        assert(b * q + b <= b * p) by (nonlinear_arith)
            requires
                q + 1 <= p,
                b > 1,
        ;
    }
    if p <= q {
        assert(b * p <= b * q) by (nonlinear_arith)
            requires
                p <= q,
                b > 1,
        ;
    }
}

/// A number in decimal has its digits by value, the ones last, and no more of them
/// than it needs.
pub proof fn decimal_shows_the_digits(n: nat)
    ensures
        decimal_of(n).len() >= 1,
        n < pow(10, decimal_of(n).len()),
        decimal_of(n).len() > 1 ==> pow(10, (decimal_of(n).len() - 1) as nat) <= n,
        forall|i: nat| i < decimal_of(n).len() ==> #[trigger] decimal_of(n)[decimal_of(n).len() - 1 - i] as int == 48 + n as int / #[trigger] pow(10, i) % 10,
    decreases n,
{
    lemma_last_digit(n, 10);
    lemma_pow0(10);
    lemma_pow1(10);
    let s = decimal_of(n);
    if n >= 10 {
        decimal_shows_the_digits(n / 10);
        let t = decimal_of(n / 10);
        lemma_bound_step(n, 10, t.len());
        lemma_bound_step(n, 10, (t.len() - 1) as nat);
        assert forall|i: nat| i < s.len() implies #[trigger] s[s.len() - 1 - i] as int == 48 + n as int / #[trigger] pow(10, i) % 10 by {
            if i > 0 {
                let j = (i - 1) as nat;
                lemma_next_digit(n, 10, j);
                assert(s[s.len() - 1 - i] == t[t.len() - 1 - j]);
                assert(pow(10, j) == pow(10, j));
            }
        }
    }
}

/// The hexadecimal digits of a number stand by value, the ones last.
pub proof fn hexadecimal_shows_the_digits(n: nat, width: nat)
    ensures
        hex_of(n, width).len() == width,
        forall|i: nat| i < width ==> {
            let d = n as int / #[trigger] pow(16, i) % 16;
            hex_of(n, width)[width - 1 - i] as int == if d < 10 {
                48 + d
            } else {
                97 + (d - 10)
            }
        },
    decreases width,
{
    lemma_last_digit(n, 16);
    if width > 0 {
        hexadecimal_shows_the_digits(n / 16, (width - 1) as nat);
        assert forall|i: nat| i < width implies {
            let d = n as int / #[trigger] pow(16, i) % 16;
            hex_of(n, width)[width - 1 - i] as int == if d < 10 {
                48 + d
            } else {
                97 + (d - 10)
            }
        } by {
            if i > 0 {
                lemma_next_digit(n, 16, (i - 1) as nat);
                assert(pow(16, (i - 1) as nat) == pow(16, (i - 1) as nat));
            }
        }
    }
}

/// A number with zeros in front has its digits by value, the ones last, and no more
/// of them than it needs or was asked for.
pub proof fn padded_shows_the_digits(n: nat, width: nat)
    ensures
        padded_of(n, width).len() >= 1,
        padded_of(n, width).len() >= width,
        n < pow(10, padded_of(n, width).len()),
        padded_of(n, width).len() > 1 && padded_of(n, width).len() > width ==> pow(10, (padded_of(n, width).len() - 1) as nat) <= n,
        forall|i: nat|
            i < padded_of(n, width).len() ==> #[trigger] padded_of(n, width)[padded_of(n, width).len() - 1 - i] as int == 48 + n as int / #[trigger] pow(10, i) % 10,
    decreases n + width,
{
    lemma_last_digit(n, 10);
    lemma_pow0(10);
    lemma_pow1(10);
    let s = padded_of(n, width);
    if !(width <= 1 && n < 10) {
        let w: nat = if width > 0 {
            (width - 1) as nat
        } else {
            0
        };
        padded_shows_the_digits(n / 10, w);
        let t = padded_of(n / 10, w);
        lemma_bound_step(n, 10, t.len());
        lemma_bound_step(n, 10, (t.len() - 1) as nat);
        assert forall|i: nat| i < s.len() implies #[trigger] s[s.len() - 1 - i] as int == 48 + n as int / #[trigger] pow(10, i) % 10 by {
            if i > 0 {
                let j = (i - 1) as nat;
                lemma_next_digit(n, 10, j);
                assert(s[s.len() - 1 - i] == t[t.len() - 1 - j]);
                assert(pow(10, j) == pow(10, j));
            }
        }
    }
}

/// Digits are read from the first to the last.
proof fn lemma_digits_push(s: Seq<char>, c: char, i: int, acc: nat)
    requires
        0 <= i <= s.len(),
    ensures
        digits_from(s.push(c), i, acc) == match digits_from(s, i, acc) {
            Some(x) => if '0' <= c && c <= '9' {
                Some((10 * x + (c as nat - 48)) as nat)
            } else {
                None
            },
            None => None,
        },
    decreases s.len() - i,
{
    reveal_with_fuel(digits_from, 2);
    if i < s.len() {
        assert(s.push(c)[i] == s[i]);
        if '0' <= s[i] && s[i] <= '9' {
            lemma_digits_push(s, c, i + 1, acc * 10 + (s[i] as nat - 48) as nat);
        }
    } else {
        assert(s.push(c)[i] == c);
    }
}

/// One more character behind a number: a digit makes it ten times as large and adds
/// its value, as long as a word holds it, and anything else makes it no number.
pub proof fn digit_behind_a_number(s: Seq<char>, c: char)
    requires
        number_of(s) is Some,
    ensures
        number_of(s.push(c)) == if '0' <= c && c <= '9' && 10 * number_of(s).unwrap() + (c as int - 48) <= 0xFFFF_FFFF_FFFF_FFFF {
            Some((10 * number_of(s).unwrap() + (c as int - 48)) as nat)
        } else {
            None
        },
{
    let i: int = if s[0] == '+' {
        1
    } else {
        0
    };
    assert(s.push(c)[0] == s[0]);
    lemma_digits_push(s, c, i, 0);
}

/// A text of one character is a number where that is a digit, and the empty text is
/// none.
pub proof fn numbers_of_one_digit(c: char)
    ensures
        number_of(seq![c]) == if '0' <= c && c <= '9' {
            Some((c as int - 48) as nat)
        } else {
            None
        },
        number_of(seq!['+', c]) == number_of(seq![c]),
        number_of(Seq::empty()) is None,
{
    reveal_with_fuel(digits_from, 3);
    assert(seq![c][0] == c && seq!['+', c][1] == c && seq!['+', c][0] == '+');
}

proof fn lemma_digits_ok(s: Seq<char>, i: int, acc: nat, k: int)
    requires
        digits_from(s, i, acc) is Some,
        0 <= i <= k < s.len(),
    ensures
        '0' <= s[k] && s[k] <= '9',
    decreases s.len() - i,
{
    if i < k {
        lemma_digits_ok(s, i + 1, acc * 10 + (s[i] as nat - 48) as nat, k);
    }
}

/// A number has nothing but digits behind its sign.
pub proof fn numbers_are_digits(s: Seq<char>, k: int)
    requires
        number_of(s) is Some,
        0 <= k < s.len(),
    ensures
        '0' <= s[k] && s[k] <= '9' || k == 0 && s[0] == '+' && s.len() > 1,
{
    let i: int = if s[0] == '+' {
        1
    } else {
        0
    };
    if k >= i {
        lemma_digits_ok(s, i, 0, k);
    }
}

/// What is written in decimal is read back, with a plus sign before it or without.
pub proof fn numbers_are_read_back(n: nat)
    requires
        n <= 0xFFFF_FFFF_FFFF_FFFF,
    ensures
        number_of(decimal_of(n)) == Some(n),
        number_of(seq!['+'] + decimal_of(n)) == Some(n),
    decreases n,
{
    if n < 10 {
        let c = digit_of(n as int);
        numbers_of_one_digit(c);
        assert(seq!['+'] + decimal_of(n) =~= seq!['+', c]);
    } else {
        numbers_are_read_back(n / 10);
        let c = digit_of((n % 10) as int);
        digit_behind_a_number(decimal_of(n / 10), c);
        digit_behind_a_number(seq!['+'] + decimal_of(n / 10), c);
        assert((seq!['+'] + decimal_of(n / 10)).push(c) =~= seq!['+'] + decimal_of(n));
    }
}

// ---- quoted texts --------------------------------------------------------------------------------

proof fn lemma_escaped_same(a: Seq<char>, b: Seq<char>, n: int)
    requires
        n <= a.len(),
        n <= b.len(),
        forall|i: int| 0 <= i < n ==> a[i] == b[i],
    ensures
        escaped_to(a, n) == escaped_to(b, n),
    decreases n,
{
    if n > 0 {
        lemma_escaped_same(a, b, n - 1);
    }
}

/// A quoted text is the text with a backslash before each quote and each backslash,
/// with control characters written out, and otherwise as it is.
pub proof fn quoting_goes_by_characters(s: Seq<char>, c: char)
    ensures
        escaped_to(Seq::empty(), 0) == Seq::<char>::empty(),
        c != '"' && c != '\\' && c as int >= 32 ==> escaped_to(s.push(c), s.len() as int + 1) == escaped_to(s, s.len() as int).push(c),
        c == '"' || c == '\\' ==> escaped_to(s.push(c), s.len() as int + 1) == escaped_to(s, s.len() as int).push('\\').push(c),
        c as int == 10 ==> escaped_to(s.push(c), s.len() as int + 1) == escaped_to(s, s.len() as int).push('\\').push('n'),
        (c as int) < 32 && c as int != 10 ==> escaped_to(s.push(c), s.len() as int + 1) == escaped_to(s, s.len() as int) + seq![
            '\\',
            'u',
            '0',
            '0',
            if c as int >= 16 {
                '1'
            } else {
                '0'
            },
            if c as int % 16 < 10 {
                (48 + c as int % 16) as char
            } else {
                (87 + c as int % 16) as char
            },
        ],
{
    lemma_escaped_same(s.push(c), s, s.len() as int);
    let t = escaped_to(s, s.len() as int);
    if c == '"' || c == '\\' {
        assert(t + escaped(c) =~= t.push('\\').push(c));
    } else if c as int == 10 {
        assert(c == '\n');
        assert(t + escaped(c) =~= t.push('\\').push('n'));
    } else if c as int >= 32 {
        assert(t + escaped(c) =~= t.push(c));
    } else {
        reveal_with_fuel(hex_of, 5);
        assert(escaped(c).len() == 6);
        assert(t + escaped(c) =~= t + seq![
            '\\',
            'u',
            '0',
            '0',
            if c as int >= 16 {
                '1'
            } else {
                '0'
            },
            if c as int % 16 < 10 {
                (48 + c as int % 16) as char
            } else {
                (87 + c as int % 16) as char
            },
        ]);
    }
}

// ---- tables --------------------------------------------------------------------------------------

proof fn lemma_find_plain(s: Seq<u8>, sep: u8, i: int, j: int)
    requires
        0 <= i <= j <= s.len(),
        forall|k: int| i <= k < j ==> s[k] != sep,
        j == s.len() || s[j] == sep,
    ensures
        find_from(s, sep, i) == j,
    decreases j - i,
{
    if i < j {
        lemma_find_plain(s, sep, i + 1, j);
    }
}

proof fn lemma_find_shift(s: Seq<u8>, sep: u8, k: int, i: int)
    requires
        0 <= k <= s.len(),
        0 <= i,
    ensures
        find_from(s, sep, k + i) == k + find_from(s.skip(k), sep, i),
    decreases s.len() - k - i,
{
    if k + i < s.len() {
        assert(s.skip(k)[i] == s[k + i]);
        if s[k + i] != sep {
            lemma_find_shift(s, sep, k, i + 1);
        }
    }
}

proof fn lemma_pieces_shift(s: Seq<u8>, sep: u8, k: int, i: int)
    requires
        0 <= k <= s.len(),
        0 <= i,
    ensures
        pieces_from(s, sep, k + i) == pieces_from(s.skip(k), sep, i),
    decreases s.len() - k - i,
{
    let t = s.skip(k);
    if k + i <= s.len() {
        lemma_find_shift(s, sep, k, i);
        lemma_find_from(s, sep, k + i);
        let j = find_from(t, sep, i);
        assert(t.subrange(i, t.len() as int) =~= s.subrange(k + i, s.len() as int));
        if j < t.len() {
            assert(t.subrange(i, j) =~= s.subrange(k + i, k + j));
            lemma_pieces_shift(s, sep, k, j + 1);
        }
    }
}

/// A line without a separator is one field, and what stands before the first
/// separator is the first field of a line, the others those of the rest.
pub proof fn fields_stand_between_separators(a: Seq<u8>, sep: u8, b: Seq<u8>)
    requires
        forall|k: int| 0 <= k < a.len() ==> a[k] != sep,
    ensures
        pieces(a, sep) == seq![a],
        pieces(a.push(sep) + b, sep) == seq![a] + pieces(b, sep),
{
    lemma_find_plain(a, sep, 0, a.len() as int);
    assert(a.subrange(0, a.len() as int) =~= a);
    let s = a.push(sep) + b;
    let n = a.len() as int;
    assert forall|k: int| 0 <= k < n implies s[k] != sep by {
        assert(s[k] == a[k]);
    }
    assert(s[n] == sep);
    lemma_find_plain(s, sep, 0, n);
    assert(s.subrange(0, n) =~= a);
    lemma_pieces_shift(s, sep, n + 1, 0);
    assert(s.skip(n + 1) =~= b);
}

proof fn lemma_lines_shift(s: Seq<u8>, k: int, i: int)
    requires
        0 <= k <= s.len(),
        0 <= i,
    ensures
        lines_from(s, k + i) == lines_from(s.skip(k), i),
    decreases s.len() - k - i,
{
    let t = s.skip(k);
    if k + i < s.len() {
        lemma_find_shift(s, 10, k, i);
        lemma_find_from(s, 10, k + i);
        let j = find_from(t, 10, i);
        assert(t.subrange(i, t.len() as int) =~= s.subrange(k + i, s.len() as int));
        if j < t.len() {
            assert(t.subrange(i, j) =~= s.subrange(k + i, k + j));
            lemma_lines_shift(s, k, j + 1);
        }
    }
}

proof fn lemma_first_line(a: Seq<u8>, b: Seq<u8>)
    requires
        forall|k: int| 0 <= k < a.len() ==> a[k] != 10,
    ensures
        lines_from(a.push(10) + b, 0) == seq![
            if a.len() > 0 && a.last() == 13 {
                a.drop_last()
            } else {
                a
            },
        ] + lines_from(b, 0),
{
    let s = a.push(10) + b;
    let n = a.len() as int;
    assert forall|k: int| 0 <= k < n implies s[k] != 10 by {
        assert(s[k] == a[k]);
    }
    assert(s[n] == 10);
    lemma_find_plain(s, 10, 0, n);
    assert(s.subrange(0, n) =~= a);
    lemma_lines_shift(s, n + 1, 0);
    assert(s.skip(n + 1) =~= b);
}

/// A line ends at a line feed, with a carriage return before it or without, and the
/// last one ends with the text, where anything is left of it.
pub proof fn lines_stand_between_line_feeds(a: Seq<u8>, b: Seq<u8>)
    requires
        forall|k: int| 0 <= k < a.len() ==> a[k] != 10,
    ensures
        lines_from(Seq::empty(), 0).len() == 0,
        a.len() > 0 ==> lines_from(a, 0) == seq![a],
        lines_from(a.push(13).push(10) + b, 0) == seq![a] + lines_from(b, 0),
        a.len() == 0 || a.last() != 13 ==> lines_from(a.push(10) + b, 0) == seq![a] + lines_from(b, 0),
{
    lemma_find_plain(a, 10, 0, a.len() as int);
    assert(a.subrange(0, a.len() as int) =~= a);
    lemma_first_line(a, b);
    assert forall|k: int| 0 <= k < a.push(13).len() implies a.push(13)[k] != 10 by {
        if k < a.len() {
            assert(a.push(13)[k] == a[k]);
        }
    }
    lemma_first_line(a.push(13), b);
    assert(a.push(13).drop_last() =~= a);
}

/// A column is found by its name, the first of that name.
pub proof fn columns_are_found_by_name(header: Seq<Seq<char>>, name: Seq<char>, i: int)
    requires
        0 <= i <= header.len(),
    ensures
        i <= column_from(header, name, i) <= header.len(),
        column_from(header, name, i) < header.len() ==> header[column_from(header, name, i)] == name,
        forall|k: int| i <= k < column_from(header, name, i) ==> #[trigger] header[k] != name,
    decreases header.len() - i,
{
    if i < header.len() && header[i] != name {
        columns_are_found_by_name(header, name, i + 1);
    }
}

// ---- elements ------------------------------------------------------------------------------------

/// Elements with an integer key are ordered by it, whatever their numbers are.
pub proof fn items_go_by_their_keys(x: Item, y: Item)
    ensures
        elem_le::<Item>()(x, y) == (x.key <= y.key),
        x.number() == x.id,
        x.same_as(&y) <==> x.key == y.key && x.id == y.id,
{
    lemma_one_chunk((x.key + 0x8000_0000) as u64, (y.key + 0x8000_0000) as u64);
}

/// Elements with a long integer key are ordered by it, whatever their numbers are.
pub proof fn long_items_go_by_their_keys(x: I64Item, y: I64Item)
    ensures
        elem_le::<I64Item>()(x, y) == (x.key <= y.key),
        x.number() == x.id,
        x.same_as(&y) <==> x.key == y.key && x.id == y.id && x.pad == y.pad,
{
    lemma_one_chunk((x.key + 0x8000_0000_0000_0000) as u64, (y.key + 0x8000_0000_0000_0000) as u64);
}

/// Elements with a floating point key are ordered by its bits: without a sign by the
/// pattern, with one the other way round and before those without, and the two zeros
/// tied.
pub proof fn floating_items_go_by_their_keys(x: DblItem, y: DblItem)
    ensures
        x.bits < 0x8000_0000_0000_0000 && y.bits < 0x8000_0000_0000_0000 ==> elem_le::<DblItem>()(x, y) == (x.bits <= y.bits),
        x.bits >= 0x8000_0000_0000_0000 && y.bits >= 0x8000_0000_0000_0000 ==> elem_le::<DblItem>()(x, y) == (y.bits <= x.bits),
        x.bits >= 0x8000_0000_0000_0000 && y.bits < 0x8000_0000_0000_0000 ==> elem_le::<DblItem>()(x, y),
        x.bits < 0x8000_0000_0000_0000 && y.bits >= 0x8000_0000_0000_0000 ==> elem_le::<DblItem>()(x, y) == (x.bits == 0 && y.bits == 0x8000_0000_0000_0000),
        x.number() == x.id,
        x.same_as(&y) <==> x.bits == y.bits && x.id == y.id && x.pad == y.pad,
{
    lemma_one_chunk((x.model().key + 0x8000_0000_0000_0000) as u64, (y.model().key + 0x8000_0000_0000_0000) as u64);
}

/// Elements with a string key are ordered by its bytes: the first that differs
/// decides, and a shorter string goes before one that goes on.
pub proof fn text_items_go_by_their_keys<'a>(x: StrItem<'a>, y: StrItem<'a>, n: int)
    requires
        x.text@.len() <= SLOT_MAX,
        y.text@.len() <= SLOT_MAX,
        0 <= n <= x.text@.len(),
        n <= y.text@.len(),
        x.text@.take(n) == y.text@.take(n),
    ensures
        n < x.text@.len() && n < y.text@.len() && x.text@[n] < y.text@[n] ==> elem_le::<StrItem>()(x, y) && !elem_le::<StrItem>()(y, x),
        n == x.text@.len() && n < y.text@.len() ==> elem_le::<StrItem>()(x, y) && !elem_le::<StrItem>()(y, x),
        n == x.text@.len() && n == y.text@.len() ==> elem_le::<StrItem>()(x, y) && elem_le::<StrItem>()(y, x),
        x.number() == x.id,
        x.same_as(&y) <==> x.text@ == y.text@ && x.id == y.id,
{
    text_chunks_order(x.text@, y.text@, false);
    text_chunks_order(y.text@, x.text@, false);
    bytes_in_order(x.text@, y.text@);
    assert(x.text@.take(x.text@.len() as int) =~= x.text@);
    assert(y.text@.take(y.text@.len() as int) =~= y.text@);
}

// ---- hashes --------------------------------------------------------------------------------------

proof fn lemma_hash_same<T: Item2>(a: Seq<T>, b: Seq<T>, n: int)
    requires
        n <= a.len(),
        n <= b.len(),
        forall|i: int| 0 <= i < n ==> a[i] == b[i],
    ensures
        order_hash_to(a, n) == order_hash_to(b, n),
    decreases n,
{
    if n > 0 {
        lemma_hash_same(a, b, n - 1);
    }
}

/// The hash of an order starts from one word; each element turns the bits of its
/// number in the hash and multiplies it, modulo a word.
pub proof fn hashes_take_one_number_after_the_other<T: Item2>(s: Seq<T>, x: T)
    ensures
        order_hash_to(Seq::<T>::empty(), 0) == 0x1465_0FB0_739D_0383,
        order_hash_to(s.push(x), s.len() as int + 1) as int == (order_hash_to(s, s.len() as int) ^ x.number() as u64) * 0x100_0000_01B3 % 0x1_0000_0000_0000_0000,
{
    lemma_hash_same(s.push(x), s, s.len() as int);
}

/// The fingerprint takes one byte after the other.
pub proof fn fingerprints_take_one_byte_after_the_other(h: u64, s: Seq<u8>, c: u8, strip: bool)
    ensures
        code_mixed(h, Seq::empty(), strip) == h,
        !(strip && c == 13) ==> code_mixed(h, s.push(c), strip) as int == (code_mixed(h, s, strip) ^ c as u64) * 0x100_0000_01B3 % 0x1_0000_0000_0000_0000,
        strip && c == 13 ==> code_mixed(h, s.push(c), strip) == code_mixed(h, s, strip),
{
    assert(s.push(c).drop_last() =~= s);
}

/// A file counts with its path, a zero, its contents without carriage returns, and a
/// zero: two files whose contents differ in carriage returns alone count the same.
pub proof fn fingerprints_leave_out_carriage_returns(h: u64, s: Seq<u8>)
    ensures
        code_mixed(h, s, true) == code_mixed(h, s.filter(|c: u8| c != 13), false),
    decreases s.len(),
{
    let f = |c: u8| c != 13;
    reveal(Seq::filter);
    if s.len() > 0 {
        fingerprints_leave_out_carriage_returns(h, s.drop_last());
        let t = s.drop_last().filter(f);
        if s.last() != 13 {
            assert(s.filter(f) == t.push(s.last()));
            assert(t.push(s.last()).drop_last() =~= t);
        }
    }
}

/// A file counts with its path, a zero, its contents and a zero, behind the files
/// before it.
pub proof fn fingerprints_take_one_file_after_the_other(h: u64, s: Seq<SourceFile>, f: SourceFile)
    ensures
        code_files(h, Seq::empty()) == h,
        code_files(CODE_OFFSET, Seq::empty()) == 0xCBF2_9CE4_8422_2325,
        code_files(h, s.push(f)) == code_mixed(code_files(h, s), f.path@.push(0) + f.data@.filter(|c: u8| c != 13).push(0), false),
{
    assert(s.push(f).drop_last() =~= s);
    let g = code_files(h, s);
    let t = f.data@.filter(|c: u8| c != 13);
    fingerprints_leave_out_carriage_returns(code_mix(code_mixed(g, f.path@, false), 0), f.data@);
    lemma_mixed_add(g, f.path@.push(0), t.push(0));
    assert(f.path@.push(0).drop_last() =~= f.path@);
    assert(t.push(0).drop_last() =~= t);
}

proof fn lemma_mixed_add(h: u64, a: Seq<u8>, b: Seq<u8>)
    ensures
        code_mixed(h, a + b, false) == code_mixed(code_mixed(h, a, false), b, false),
    decreases b.len(),
{
    if b.len() == 0 {
        assert(a + b =~= a);
    } else {
        lemma_mixed_add(h, a, b.drop_last());
        assert((a + b).drop_last() =~= a + b.drop_last());
    }
}

// ---- the result of a sort ------------------------------------------------------------------------

proof fn lemma_first_difference<T: Item2>(a: Seq<T>, b: Seq<T>, i: int, k: int)
    requires
        0 <= i <= k < a.len(),
        forall|j: int| i <= j < k ==> (#[trigger] a[j]).same_as(&b[j]),
        !a[k].same_as(&b[k]),
    ensures
        first_difference(a, b, i) == k,
    decreases k - i,
{
    if i < k {
        assert(a[i].same_as(&b[i]));
        lemma_first_difference(a, b, i + 1, k);
    }
}

/// An output has no fault where it holds the elements of the reference one for one;
/// otherwise the first element that differs is named, or the size where that
/// changed.
pub proof fn faults_name_the_first_difference<T: Item2>(out: Seq<T>, reference: Seq<T>, k: int)
    ensures
        sort_fault(out, reference) is None <==> out.len() == reference.len() && forall|i: int| 0 <= i < out.len() ==> (#[trigger] out[i]).same_as(&reference[i]),
        out.len() != reference.len() ==> sort_fault(out, reference) == Some(Fault::Size),
        out.len() == reference.len() && 0 <= k < out.len() <= usize::MAX && !out[k].same_as(&reference[k]) && (forall|i: int| 0 <= i < k ==> (#[trigger] out[i]).same_as(&reference[i]))
            ==> sort_fault(out, reference) == Some(Fault::Mismatch { index: k as usize, id: out[k].number(), expected: reference[k].number() }),
{
    if out.len() == reference.len() && 0 <= k < out.len() && !out[k].same_as(&reference[k]) && (forall|i: int| 0 <= i < k ==> (#[trigger] out[i]).same_as(&reference[i])) {
        lemma_first_difference(out, reference, 0, k);
    }
}

// ---- the date ------------------------------------------------------------------------------------

/// The calendar: the first day of 1970 is day 0, a day follows the one before it, the
/// first of a month follows the last of the month before, and that of a year the last
/// of December; every fourth year is a day longer, but for three in four hundred.
pub proof fn days_follow_each_other(y: int, m: int, d: int)
    requires
        1 <= m <= 12,
    ensures
        day_number(1970, 1, 1) == 0,
        day_number(y, m, d + 1) == day_number(y, m, d) + 1,
        m == 4 || m == 6 || m == 9 || m == 11 ==> day_number(y, m + 1, 1) == day_number(y, m, 30) + 1 && month_days(y, m) == 30,
        m == 1 || m == 3 || m == 5 || m == 7 || m == 8 || m == 10 ==> day_number(y, m + 1, 1) == day_number(y, m, 31) + 1 && month_days(y, m) == 31,
        m == 2 && y % 4 != 0 ==> day_number(y, 3, 1) == day_number(y, 2, 28) + 1 && month_days(y, 2) == 28,
        m == 2 && y % 100 == 0 && y % 400 != 0 ==> day_number(y, 3, 1) == day_number(y, 2, 28) + 1 && month_days(y, 2) == 28,
        m == 2 && y % 4 == 0 && y % 100 != 0 ==> day_number(y, 3, 1) == day_number(y, 2, 29) + 1 && month_days(y, 2) == 29,
        m == 2 && y % 400 == 0 ==> day_number(y, 3, 1) == day_number(y, 2, 29) + 1 && month_days(y, 2) == 29,
        m == 12 ==> day_number(y + 1, 1, 1) == day_number(y, 12, 31) + 1 && month_days(y, 12) == 31,
{
    reveal_with_fuel(days_before_month, 14);
    year_adds_up(y);
    if m == 2 && y % 400 == 0 {
        assert(y % 4 == 0 && y % 100 == 0) by (nonlinear_arith)
            requires
                y % 400 == 0,
        ;
    }
}

/// A time in words: the year, the month, the day, the hour, the minute and the
/// second, with two digits each but for the year, and signs between them.
pub proof fn times_in_words(d: Date, second: int)
    requires
        d.year <= 9999,
        1 <= d.month <= 12,
        1 <= d.day <= 31,
        0 <= second < 86400,
    ensures
        utc_of(d, second).len() == 20,
        utc_of(d, second)[4] == '-',
        utc_of(d, second)[7] == '-',
        utc_of(d, second)[10] == 'T',
        utc_of(d, second)[13] == ':',
        utc_of(d, second)[16] == ':',
        utc_of(d, second)[19] == 'Z',
        utc_of(d, second).subrange(0, 4) == padded_of(d.year as nat, 4),
        utc_of(d, second).subrange(5, 7) == padded_of(d.month as nat, 2),
        utc_of(d, second).subrange(8, 10) == padded_of(d.day as nat, 2),
        exists|h: nat, m: nat, s: nat|
            {
                &&& h < 24
                &&& m < 60
                &&& s < 60
                &&& 3600 * h + 60 * m + s == second
                &&& utc_of(d, second).subrange(11, 13) == #[trigger] padded_of(h, 2)
                &&& utc_of(d, second).subrange(14, 16) == #[trigger] padded_of(m, 2)
                &&& utc_of(d, second).subrange(17, 19) == #[trigger] padded_of(s, 2)
            },
{
    let t = utc_of(d, second);
    let h = (second / 3600) as nat;
    let m = (second % 3600 / 60) as nat;
    let s = (second % 60) as nat;
    lemma_padded_width(d.year as nat, 4);
    lemma_padded_width(d.month as nat, 2);
    lemma_padded_width(d.day as nat, 2);
    lemma_padded_width(h, 2);
    lemma_padded_width(m, 2);
    lemma_padded_width(s, 2);
    assert(t.subrange(0, 4) =~= padded_of(d.year as nat, 4));
    assert(t.subrange(5, 7) =~= padded_of(d.month as nat, 2));
    assert(t.subrange(8, 10) =~= padded_of(d.day as nat, 2));
    assert(t.subrange(11, 13) =~= padded_of(h, 2));
    assert(t.subrange(14, 16) =~= padded_of(m, 2));
    assert(t.subrange(17, 19) =~= padded_of(s, 2));
    assert(3600 * h + 60 * m + s == second);
}

proof fn lemma_padded_width(n: nat, width: nat)
    requires
        width == 2 && n < 100 || width == 4 && n < 10000,
    ensures
        padded_of(n, width).len() == width,
{
    reveal_with_fuel(padded_of, 5);
}

/// Bytes become the characters of the same numbers.
pub proof fn bytes_become_characters(s: Seq<u8>, i: int)
    requires
        0 <= i < s.len(),
    ensures
        text_of(s).len() == s.len(),
        text_of(s)[i] as int == s[i],
{
}

/// A line that is not empty is a row, cut at its commas, and an empty one is none.
pub proof fn lines_become_rows(lines: Seq<Seq<u8>>, l: Seq<u8>)
    ensures
        rows_of(Seq::empty()).len() == 0,
        l.len() == 0 ==> rows_of(lines.push(l)) == rows_of(lines),
        l.len() > 0 ==> rows_of(lines.push(l)) == rows_of(lines).push(texts_of(pieces(l, ',' as u8))),
{
    let f = |l: Seq<u8>| l.len() > 0;
    let g = |l: Seq<u8>| texts_of(pieces(l, 44));
    reveal(Seq::filter);
    assert(lines.push(l).drop_last() =~= lines);
    let t = lines.filter(f);
    assert(Seq::<Seq<u8>>::empty().filter(f) =~= Seq::empty());
    if l.len() > 0 {
        assert(lines.push(l).filter(f) == t.push(l));
        assert(t.push(l).map_values(g) =~= t.map_values(g).push(g(l)));
    }
    assert(',' as u8 == 44);
}

} // verus!
