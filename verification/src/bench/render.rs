//! Numbers and text as the tables and files of the measurements show them.
use vstd::prelude::*;

verus! {

/// `String::push` of the standard library appends the character.
pub assume_specification[ String::push ](s: &mut String, c: char)
    ensures
        final(s)@ == old(s)@.push(c),
;

/// The character of a digit, lower case.
pub open spec fn digit_of(d: int) -> char {
    if d < 10 {
        (48 + d) as char
    } else {
        (87 + d) as char
    }
}

/// A number in decimal.
pub open spec fn decimal_of(n: nat) -> Seq<char>
    decreases n,
{
    if n < 10 {
        seq![digit_of(n as int)]
    } else {
        decimal_of(n / 10).push(digit_of((n % 10) as int))
    }
}

/// The last `width` hexadecimal digits of a number.
pub open spec fn hex_of(n: nat, width: nat) -> Seq<char>
    decreases width,
{
    if width == 0 {
        Seq::empty()
    } else {
        hex_of(n / 16, (width - 1) as nat).push(digit_of((n % 16) as int))
    }
}

/// A number in decimal with zeros in front, of at least `width` digits.
pub open spec fn padded_of(n: nat, width: nat) -> Seq<char>
    decreases n + width,
{
    if width <= 1 && n < 10 {
        seq![digit_of(n as int)]
    } else {
        padded_of(
            n / 10,
            (if width > 0 {
                width - 1
            } else {
                0
            }) as nat,
        ).push(digit_of((n % 10) as int))
    }
}

/// The digit with this value.
fn digit(d: u8) -> (r: char)
    requires
        d < 16,
    ensures
        r == digit_of(d as int),
{
    if d < 10 {
        (48 + d) as char
    } else {
        (87 + d) as char
    }
}

/// Appends a number in decimal.
pub fn push_decimal(s: &mut String, n: u64)
    ensures
        final(s)@ == old(s)@ + decimal_of(n as nat),
    decreases n,
{
    if n >= 10 {
        push_decimal(s, n / 10);
    }
    s.push(digit((n % 10) as u8));
    assert(s@ =~= old(s)@ + decimal_of(n as nat));
}

/// A number in decimal.
pub fn decimal(n: u64) -> (r: String)
    ensures
        r@ == decimal_of(n as nat),
{
    let mut s: String = String::new();
    push_decimal(&mut s, n);
    assert(s@ =~= decimal_of(n as nat));
    s
}

/// Appends the last `width` hexadecimal digits of a number.
pub fn push_hex(s: &mut String, n: u64, width: usize)
    ensures
        final(s)@ == old(s)@ + hex_of(n as nat, width as nat),
    decreases width,
{
    if width > 0 {
        push_hex(s, n / 16, width - 1);
        s.push(digit((n % 16) as u8));
    }
    assert(s@ =~= old(s)@ + hex_of(n as nat, width as nat));
}

/// A word as sixteen hexadecimal digits.
pub fn hex16(n: u64) -> (r: String)
    ensures
        r@ == hex_of(n as nat, 16),
{
    let mut s: String = String::new();
    push_hex(&mut s, n, 16);
    assert(s@ =~= hex_of(n as nat, 16));
    s
}

/// Appends a number in decimal with zeros in front, of at least `width` digits.
pub fn push_padded(s: &mut String, n: u64, width: usize)
    ensures
        final(s)@ == old(s)@ + padded_of(n as nat, width as nat),
    decreases n + width,
{
    if width > 1 || n >= 10 {
        push_padded(
            s,
            n / 10,
            if width > 0 {
                width - 1
            } else {
                0
            },
        );
    }
    s.push(digit((n % 10) as u8));
    assert(s@ =~= old(s)@ + padded_of(n as nat, width as nat));
}

/// Whether two texts are the same.
pub fn same_text(a: &str, b: &str) -> (r: bool)
    ensures
        r == (a@ == b@),
{
    let n: usize = a.unicode_len();
    if n != b.unicode_len() {
        return false;
    }
    let mut i: usize = 0;
    while i < n
        invariant
            i <= n == a@.len() == b@.len(),
            forall|k: int| 0 <= k < i ==> a@[k] == b@[k],
        decreases n - i,
    {
        if a.get_char(i) != b.get_char(i) {
            return false;
        }
        i += 1;
    }
    assert(a@ =~= b@);
    true
}

/// A character as it stands in a quoted text.
pub open spec fn escaped(c: char) -> Seq<char> {
    if c == '"' {
        seq!['\\', '"']
    } else if c == '\\' {
        seq!['\\', '\\']
    } else if c == '\n' {
        seq!['\\', 'n']
    } else if (c as u32) < 0x20 {
        seq!['\\', 'u'] + hex_of(c as nat, 4)
    } else {
        seq![c]
    }
}

/// The first `n` characters of a text as they stand in a quoted text.
pub open spec fn escaped_to(s: Seq<char>, n: int) -> Seq<char>
    decreases n,
{
    if n <= 0 {
        Seq::empty()
    } else {
        escaped_to(s, n - 1) + escaped(s[n - 1])
    }
}

/// A text as a quoted string.
pub fn json_str(s: &str) -> (r: String)
    ensures
        r@ == seq!['"'] + escaped_to(s@, s@.len() as int) + seq!['"'],
{
    let n: usize = s.unicode_len();
    let mut o: String = String::new();
    o.push('"');
    let mut i: usize = 0;
    while i < n
        invariant
            i <= n == s@.len(),
            o@ == seq!['"'] + escaped_to(s@, i as int),
        decreases n - i,
    {
        let c: char = s.get_char(i);
        let ghost before = o@;
        if c == '"' {
            o.push('\\');
            o.push('"');
        } else if c == '\\' {
            o.push('\\');
            o.push('\\');
        } else if c == '\n' {
            o.push('\\');
            o.push('n');
        } else if (c as u32) < 0x20 {
            o.push('\\');
            o.push('u');
            push_hex(&mut o, c as u64, 4);
        } else {
            o.push(c);
        }
        i += 1;
        assert(o@ =~= before + escaped(c));
        assert(o@ =~= seq!['"'] + escaped_to(s@, i as int));
    }
    o.push('"');
    assert(o@ =~= seq!['"'] + escaped_to(s@, n as int) + seq!['"']);
    o
}

} // verus!
