//! What the stamp of a run says of the machine.
use vstd::prelude::*;

verus! {

/// A character that trimming removes.
pub open spec fn is_space(c: char) -> bool {
    let v = c as int;
    9 <= v <= 13 || v == 32 || v == 0x85 || v == 0xA0 || v == 0x1680 || 0x2000 <= v <= 0x200A || v == 0x2028 || v == 0x2029 || v == 0x202F || v == 0x205F || v == 0x3000
}

/// A character between a name and its value.
pub open spec fn is_separator(c: char) -> bool {
    c == ' ' || c == '\t' || c == ':'
}

/// The text without such characters in front.
pub open spec fn trim_front(s: Seq<char>, p: spec_fn(char) -> bool) -> Seq<char>
    decreases s.len(),
{
    if s.len() > 0 && p(s[0]) {
        trim_front(s.skip(1), p)
    } else {
        s
    }
}

/// The text without such characters at the end.
pub open spec fn trim_back(s: Seq<char>, p: spec_fn(char) -> bool) -> Seq<char>
    decreases s.len(),
{
    if s.len() > 0 && p(s.last()) {
        trim_back(s.drop_last(), p)
    } else {
        s
    }
}

/// The value of a line, its separators and the space round it left out.
pub open spec fn value_of(s: Seq<char>) -> Seq<char> {
    trim_back(trim_front(trim_front(s, |c: char| is_separator(c)), |c: char| is_space(c)), |c: char| is_space(c))
}

/// The end of the line at `i`.
pub open spec fn line_end(t: Seq<char>, i: int) -> int
    decreases t.len() - i,
{
    if 0 <= i < t.len() && t[i] != '\n' {
        line_end(t, i + 1)
    } else {
        i
    }
}

/// The name of the processor in the lines at `i` and after: the value of the
/// first line that begins with the name of the field.
pub open spec fn model_at(t: Seq<char>, i: int) -> Option<Seq<char>>
    decreases t.len() + 1 - i,
    when 0 <= i
    via model_decreases
{
    if i >= t.len() {
        None
    } else {
        let e = line_end(t, i);
        if i + 10 <= e && t.subrange(i, i + 10) == "model name"@ {
            Some(value_of(t.subrange(i + 10, e)))
        } else {
            model_at(t, e + 1)
        }
    }
}

#[via_fn]
proof fn model_decreases(t: Seq<char>, i: int) {
    if i < t.len() {
        lemma_line_end(t, i);
    }
}

proof fn lemma_line_end(t: Seq<char>, i: int)
    requires
        0 <= i <= t.len(),
    ensures
        i <= line_end(t, i) <= t.len(),
    decreases t.len() - i,
{
    if i < t.len() && t[i] != '\n' {
        lemma_line_end(t, i + 1);
    }
}

fn space(c: char) -> (r: bool)
    ensures
        r == is_space(c),
{
    let v: u32 = c as u32;
    (9 <= v && v <= 13) || v == 32 || v == 0x85 || v == 0xA0 || v == 0x1680 || (0x2000 <= v && v <= 0x200A) || v == 0x2028 || v == 0x2029 || v == 0x202F || v == 0x205F || v
        == 0x3000
}

fn value(t: &Vec<char>, from: usize, to: usize) -> (r: String)
    requires
        from <= to <= t@.len(),
    ensures
        r@ == value_of(t@.subrange(from as int, to as int)),
{
    let mut a: usize = from;
    let mut b: usize = to;
    let ghost s = t@;
    let ghost sep = |c: char| is_separator(c);
    let ghost spc = |c: char| is_space(c);
    while a < b && (t[a] == ' ' || t[a] == '\t' || t[a] == ':')
        invariant
            from <= a <= b == to <= t@.len(),
            s == t@,
            forall|c: char| #[trigger] sep(c) == is_separator(c),
            trim_front(s.subrange(from as int, to as int), sep) == trim_front(s.subrange(a as int, b as int), sep),
        decreases b - a,
    {
        assert(s.subrange(a as int, b as int).skip(1) =~= s.subrange(a + 1, b as int));
        a += 1;
    }
    let ghost first = s.subrange(a as int, b as int);
    while a < b && space(t[a])
        invariant
            a <= b == to <= t@.len(),
            s == t@,
            forall|c: char| #[trigger] spc(c) == is_space(c),
            trim_front(first, spc) == trim_front(s.subrange(a as int, b as int), spc),
        decreases b - a,
    {
        assert(s.subrange(a as int, b as int).skip(1) =~= s.subrange(a + 1, b as int));
        a += 1;
    }
    let ghost second = s.subrange(a as int, b as int);
    while a < b && space(t[b - 1])
        invariant
            a <= b <= t@.len(),
            s == t@,
            forall|c: char| #[trigger] spc(c) == is_space(c),
            trim_back(second, spc) == trim_back(s.subrange(a as int, b as int), spc),
        decreases b - a,
    {
        assert(s.subrange(a as int, b as int).drop_last() =~= s.subrange(a as int, b - 1));
        b -= 1;
    }
    let ghost third = s.subrange(a as int, b as int);
    let mut r: String = String::new();
    let mut i: usize = a;
    while i < b
        invariant
            a <= i <= b <= t@.len(),
            s == t@,
            r@ == s.subrange(a as int, i as int),
        decreases b - i,
    {
        r.push(t[i]);
        i += 1;
        assert(r@ =~= s.subrange(a as int, i as int));
    }
    r
}

/// The name of the processor in the text that the system describes it by.
pub fn cpu_model(text: &Vec<char>) -> (r: Option<String>)
    ensures
        r matches Some(x) ==> model_at(text@, 0) == Some(x@),
        r is None ==> model_at(text@, 0) is None,
{
    proof {
        reveal_strlit("model name");
    }
    let n: usize = text.len();
    let mut i: usize = 0;
    while i < n
        invariant
            n == text@.len(),
            i <= n,
            model_at(text@, 0) == model_at(text@, i as int),
            "model name"@ == seq!['m', 'o', 'd', 'e', 'l', ' ', 'n', 'a', 'm', 'e'],
        decreases n - i,
    {
        let mut e: usize = i;
        while e < n && text[e] != '\n'
            invariant
                i <= e <= n == text@.len(),
                line_end(text@, i as int) == line_end(text@, e as int),
            decreases n - e,
        {
            e += 1;
        }
        if e - i >= 10 && text[i] == 'm' && text[i + 1] == 'o' && text[i + 2] == 'd' && text[i + 3] == 'e' && text[i + 4] == 'l' && text[i + 5] == ' ' && text[i + 6] == 'n' && text[i + 7]
            == 'a' && text[i + 8] == 'm' && text[i + 9] == 'e' {
            assert(text@.subrange(i as int, i + 10) =~= "model name"@);
            return Some(value(text, i + 10, e));
        }
        proof {
            if i + 10 <= e && text@.subrange(i as int, i + 10) == "model name"@ {
                let w = text@.subrange(i as int, i + 10);
                assert(w[0] == 'm' && w[1] == 'o' && w[2] == 'd' && w[3] == 'e' && w[4] == 'l' && w[5] == ' ' && w[6] == 'n' && w[7] == 'a' && w[8] == 'm' && w[9] == 'e');
            }
        }
        if e == n {
            assert(model_at(text@, e + 1) is None);
            return None;
        }
        i = e + 1;
    }
    None
}

} // verus!
