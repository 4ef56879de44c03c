//! Byte strings as sequences of chunk keys.
//!
//! A byte string is cut into chunks of seven bytes. The key of a chunk is the
//! bytes it holds, the most significant first, zero where the string has ended,
//! and below them how many of the seven the string has. The last chunk of every
//! string has fewer than seven, so that no string ends where another one goes
//! on. Chunk by chunk the keys order strings as their bytes do, with a shorter
//! prefix first.
use crate::view::{agree_below, lemma_lex_agree, lex_le, Elem};
use vstd::arithmetic::power2::{lemma2_to64, lemma2_to64_rest, lemma_pow2_adds, lemma_pow2_pos, pow2};
use vstd::prelude::*;

verus! {

/// Bytes of a string in one chunk.
pub const STR_CHUNK_BYTES: u64 = 7;

/// Lexicographic order of two byte strings from `i` on: a shorter prefix first.
pub open spec fn bytes_le_from(a: Seq<u8>, b: Seq<u8>, i: int) -> bool
    decreases a.len() - i,
{
    if i >= a.len() {
        true
    } else if i >= b.len() {
        false
    } else if a[i] != b[i] {
        a[i] < b[i]
    } else {
        bytes_le_from(a, b, i + 1)
    }
}

/// Lexicographic order of two byte strings.
pub open spec fn bytes_le(a: Seq<u8>, b: Seq<u8>) -> bool {
    bytes_le_from(a, b, 0)
}

/// The strings hold the same bytes below `n`, and both reach there.
pub open spec fn same_below(a: Seq<u8>, b: Seq<u8>, n: int) -> bool {
    &&& n <= a.len()
    &&& n <= b.len()
    &&& forall|i: int| 0 <= i < n ==> #[trigger] a[i] == b[i]
}

proof fn lemma_bytes_skip(a: Seq<u8>, b: Seq<u8>, i: int, j: int)
    requires
        0 <= i <= j,
        same_below(a, b, j),
    ensures
        bytes_le_from(a, b, i) == bytes_le_from(a, b, j),
    decreases j - i,
{
    if i < j {
        assert(a[i] == b[i]);
        lemma_bytes_skip(a, b, i + 1, j);
    }
}

/// The order of byte strings is a total order.
pub proof fn bytes_order_total(a: Seq<u8>, b: Seq<u8>, i: int)
    requires
        0 <= i,
        same_below(a, b, i),
    ensures
        bytes_le_from(a, b, i) || bytes_le_from(b, a, i),
        bytes_le_from(a, b, i) && bytes_le_from(b, a, i) <==> a == b,
    decreases a.len() - i,
{
    if i < a.len() && i < b.len() && a[i] == b[i] {
        bytes_order_total(a, b, i + 1);
    } else if i == a.len() && i == b.len() {
        assert(a =~= b);
    }
}

/// The number whose digits to the base 256 are the bytes.
pub open spec fn word(s: Seq<u8>) -> int
    decreases s.len(),
{
    if s.len() == 0 {
        0
    } else {
        word(s.drop_last()) * 256 + s.last()
    }
}

proof fn lemma_word_bound(s: Seq<u8>)
    ensures
        0 <= word(s) < pow2(8 * s.len()),
    decreases s.len(),
{
    lemma2_to64();
    if s.len() > 0 {
        lemma_word_bound(s.drop_last());
        lemma_pow2_adds(8 * (s.len() - 1) as nat, 8);
        assert(8 * s.len() == 8 * (s.len() - 1) + 8);
    }
}

/// The first byte in which two words differ decides.
proof fn lemma_word_less(a: Seq<u8>, b: Seq<u8>, k: int)
    requires
        a.len() == b.len(),
        0 <= k < a.len(),
        forall|i: int| 0 <= i < k ==> #[trigger] a[i] == b[i],
        a[k] < b[k],
    ensures
        word(a) < word(b),
    decreases a.len(),
{
    let (x, y) = (a.drop_last(), b.drop_last());
    if k == a.len() - 1 {
        assert(x =~= y);
    } else {
        lemma_word_less(x, y, k);
    }
}

/// How many of the seven bytes of chunk `c` the string has.
pub open spec fn chunk_valid(s: Seq<u8>, c: int) -> int {
    if 7 * c >= s.len() {
        0
    } else if 7 * c + 7 <= s.len() {
        7
    } else {
        s.len() - 7 * c
    }
}

/// The bytes of chunk `c`, zero where the string has ended.
pub open spec fn chunk_text(s: Seq<u8>, c: int) -> Seq<u8> {
    Seq::new(
        7,
        |i: int|
            if 7 * c + i < s.len() {
                s[7 * c + i]
            } else {
                0u8
            },
    )
}

/// The key of chunk `c`.
pub open spec fn chunk_key_of(s: Seq<u8>, c: int) -> u64 {
    (word(chunk_text(s, c)) * 256 + chunk_valid(s, c)) as u64
}

/// The key of a chunk for a key that sorts in descending order: the bytes are
/// inverted and the count is reversed, so a tie on the bytes puts the longer
/// string first.
pub open spec fn reversed_key(k: u64) -> u64 {
    (0xFFFF_FFFF_FFFF_FF07 - k) as u64
}

/// How many chunks a string has.
pub open spec fn chunk_count(len: int) -> int {
    len / 7 + 1
}

/// The chunk keys of a string.
pub open spec fn text_chunks(s: Seq<u8>, desc: bool) -> Seq<u64> {
    Seq::new(
        chunk_count(s.len() as int) as nat,
        |c: int|
            if desc {
                reversed_key(chunk_key_of(s, c))
            } else {
                chunk_key_of(s, c)
            },
    )
}

/// A chunk key fits, and leaves room to be reversed.
pub proof fn lemma_chunk_key(s: Seq<u8>, c: int)
    requires
        0 <= c,
    ensures
        0 <= word(chunk_text(s, c)) <= 0xFF_FFFF_FFFF_FFFF,
        chunk_key_of(s, c) == word(chunk_text(s, c)) * 256 + chunk_valid(s, c),
        chunk_key_of(s, c) <= 0xFFFF_FFFF_FFFF_FF07,
{
    lemma_word_bound(chunk_text(s, c));
    lemma2_to64_rest();
}

/// Two different chunk keys after the same bytes order the strings.
proof fn lemma_chunk_decides(a: Seq<u8>, b: Seq<u8>, c: int)
    requires
        0 <= c,
        same_below(a, b, 7 * c),
    ensures
        chunk_key_of(a, c) < chunk_key_of(b, c) ==> bytes_le_from(a, b, 7 * c) && !bytes_le_from(b, a, 7 * c),
        chunk_key_of(a, c) == chunk_key_of(b, c) ==> chunk_valid(a, c) == chunk_valid(b, c) && same_below(a, b, 7 * c + chunk_valid(a, c)),
{
    let (p, q) = (chunk_text(a, c), chunk_text(b, c));
    let (va, vb) = (chunk_valid(a, c), chunk_valid(b, c));
    lemma_chunk_key(a, c);
    lemma_chunk_key(b, c);
    if p =~= q {
        assert forall|i: int| 0 <= i < 7 * c + va && i < 7 * c + vb implies a[i] == b[i] by {
            if i >= 7 * c {
                assert(p[i - 7 * c] == q[i - 7 * c]);
            }
        }
        if va < vb {
            lemma_bytes_skip(a, b, 7 * c, 7 * c + va);
            lemma_bytes_skip(b, a, 7 * c, 7 * c + va);
        }
    } else {
        let k = lemma_first_difference(p, q);
        if p[k] < q[k] {
            lemma_word_less(p, q, k);
            lemma_chunk_text_less(a, b, c, k);
        } else {
            lemma_word_less(q, p, k);
        }
    }
}

proof fn lemma_chunk_text_less(a: Seq<u8>, b: Seq<u8>, c: int, k: int)
    requires
        0 <= c,
        same_below(a, b, 7 * c),
        0 <= k < 7,
        forall|i: int| 0 <= i < k ==> #[trigger] chunk_text(a, c)[i] == chunk_text(b, c)[i],
        chunk_text(a, c)[k] < chunk_text(b, c)[k],
    ensures
        bytes_le_from(a, b, 7 * c),
        !bytes_le_from(b, a, 7 * c),
{
    let (p, q) = (chunk_text(a, c), chunk_text(b, c));
    let e = if 7 * c + k < a.len() {
        7 * c + k
    } else {
        a.len() as int
    };
    assert(7 * c + k < b.len());
    assert forall|i: int| 0 <= i < e implies #[trigger] a[i] == b[i] by {
        if i >= 7 * c {
            assert(p[i - 7 * c] == q[i - 7 * c]);
        }
    }
    lemma_bytes_skip(a, b, 7 * c, e);
    lemma_bytes_skip(b, a, 7 * c, e);
}

/// The first place in which two sequences of one length differ.
proof fn lemma_first_difference(p: Seq<u8>, q: Seq<u8>) -> (k: int)
    requires
        p.len() == q.len(),
        p != q,
    ensures
        0 <= k < p.len(),
        p[k] != q[k],
        forall|i: int| 0 <= i < k ==> #[trigger] p[i] == q[i],
    decreases p.len(),
{
    if p.len() == 0 {
        assert(p =~= q);
        0
    } else if p.drop_last() =~= q.drop_last() {
        assert forall|i: int| 0 <= i < p.len() - 1 implies #[trigger] p[i] == q[i] by {
            assert(p.drop_last()[i] == q.drop_last()[i]);
        }
        if p.last() == q.last() {
            assert(p =~= q);
        }
        p.len() - 1
    } else {
        let k = lemma_first_difference(p.drop_last(), q.drop_last());
        assert forall|i: int| 0 <= i < k implies #[trigger] p[i] == q[i] by {
            assert(p.drop_last()[i] == q.drop_last()[i]);
        }
        k
    }
}


/// Strings whose chunks agree below one that both have agree on the bytes
/// before it.
pub proof fn lemma_text_agree(a: Seq<u8>, b: Seq<u8>, desc: bool, c: int)
    requires
        0 <= c,
        agree_below(text_chunks(a, desc), text_chunks(b, desc), c),
        c < text_chunks(a, desc).len(),
        c < text_chunks(b, desc).len(),
    ensures
        same_below(a, b, 7 * c),
    decreases c,
{
    if c > 0 {
        lemma_text_agree(a, b, desc, c - 1);
        assert(text_chunks(a, desc)[c - 1] == text_chunks(b, desc)[c - 1]);
        lemma_chunk_key(a, c - 1);
        lemma_chunk_key(b, c - 1);
        lemma_chunk_decides(a, b, c - 1);
    }
}

/// Strings whose chunks agree up to one end there together or not at all; where
/// they end they are the same.
pub proof fn lemma_text_ends(a: Seq<u8>, b: Seq<u8>, desc: bool, c: int)
    requires
        0 <= c,
        agree_below(text_chunks(a, desc), text_chunks(b, desc), c + 1),
    ensures
        text_chunks(a, desc).len() == c + 1 <==> text_chunks(b, desc).len() == c + 1,
        text_chunks(a, desc).len() == c + 1 ==> a == b,
{
    lemma_text_agree(a, b, desc, c);
    assert(text_chunks(a, desc)[c] == text_chunks(b, desc)[c]);
    lemma_chunk_key(a, c);
    lemma_chunk_key(b, c);
    lemma_chunk_decides(a, b, c);
    if text_chunks(a, desc).len() == c + 1 {
        assert(a =~= b);
    }
}

/// The first chunk in which two different strings differ: both have it, and it
/// orders them.
pub proof fn lemma_text_differs(a: Seq<u8>, b: Seq<u8>, desc: bool, from: int) -> (c: int)
    requires
        a != b,
        0 <= from,
        from < text_chunks(a, desc).len(),
        from < text_chunks(b, desc).len(),
        agree_below(text_chunks(a, desc), text_chunks(b, desc), from),
    ensures
        from <= c < text_chunks(a, desc).len(),
        c < text_chunks(b, desc).len(),
        agree_below(text_chunks(a, desc), text_chunks(b, desc), c),
        text_chunks(a, desc)[c] != text_chunks(b, desc)[c],
        text_chunks(a, desc)[c] < text_chunks(b, desc)[c] <==> if desc {
            bytes_le(b, a)
        } else {
            bytes_le(a, b)
        },
    decreases text_chunks(a, desc).len() - from,
{
    let (x, y) = (text_chunks(a, desc), text_chunks(b, desc));
    lemma_text_agree(a, b, desc, from);
    if x[from] == y[from] {
        assert(agree_below(x, y, from + 1));
        lemma_text_ends(a, b, desc, from);
        lemma_text_differs(a, b, desc, from + 1)
    } else {
        lemma_chunk_key(a, from);
        lemma_chunk_key(b, from);
        lemma_chunk_decides(a, b, from);
        lemma_chunk_decides(b, a, from);
        lemma_bytes_skip(a, b, 0, 7 * from);
        lemma_bytes_skip(b, a, 0, 7 * from);
        from
    }
}

/// The chunk keys order byte strings as their bytes do; those of a descending
/// key the other way round.
pub proof fn text_chunks_order(a: Seq<u8>, b: Seq<u8>, desc: bool)
    ensures
        lex_le(text_chunks(a, desc), text_chunks(b, desc)) == if desc {
            bytes_le(b, a)
        } else {
            bytes_le(a, b)
        },
{
    let (x, y) = (text_chunks(a, desc), text_chunks(b, desc));
    bytes_order_total(a, b, 0);
    if a == b {
        lemma_lex_agree(x, y, x.len() as int);
    } else {
        let c = lemma_text_differs(a, b, desc, 0);
        lemma_lex_agree(x, y, c);
    }
}

// ---- the functions -------------------------------------------------------------------------------

/// The chunk key of the bytes `b` at chunk `chunk`; 0 behind the end.
pub fn str_chunk_key(b: &[u8], chunk: u64) -> (r: u64)
    requires
        chunk < 0x10_0000_0000,
    ensures
        r == chunk_key_of(b@, chunk as int),
{
    let ghost s = b@;
    let ghost c = chunk as int;
    let off: u64 = chunk * STR_CHUNK_BYTES;
    let len: u64 = b.len() as u64;
    let ghost t = chunk_text(s, c);
    let mut w: u64 = 0;
    let mut i: u64 = 0;
    proof {
        lemma_chunk_key(s, c);
        assert(t.take(0) =~= Seq::<u8>::empty());
        assert(t.take(7) =~= t);
    }
    while i < STR_CHUNK_BYTES
        invariant
            i <= 7,
            s == b@,
            c == chunk,
            chunk < 0x10_0000_0000,
            off == 7 * c,
            len == s.len(),
            t == chunk_text(s, c),
            w == word(t.take(i as int)),
        decreases 7 - i,
    {
        let byte: u64 = if off + i < len {
            b[(off + i) as usize] as u64
        } else {
            0
        };
        proof {
            let u = t.take(i + 1);
            assert(u.drop_last() =~= t.take(i as int));
            assert(u.last() == t[i as int]);
            lemma_word_bound(u);
            lemma_pow2_le_56((8 * (i + 1)) as nat);
        }
        w = w * 256 + byte;
        i += 1;
    }
    let valid: u64 = if off >= len {
        0
    } else if off + STR_CHUNK_BYTES <= len {
        STR_CHUNK_BYTES
    } else {
        len - off
    };
    w * 256 + valid
}

proof fn lemma_pow2_le_56(n: nat)
    requires
        n <= 56,
    ensures
        pow2(n) <= 0x100_0000_0000_0000,
{
    lemma2_to64_rest();
    lemma_pow2_adds(n, (56 - n) as nat);
    lemma_pow2_pos((56 - n) as nat);
    let (x, y) = (pow2(n) as int, pow2((56 - n) as nat) as int);
    assert(x <= x * y) by (nonlinear_arith)
        requires
            x >= 0,
            y >= 1,
    ;
}

/// The same chunk for a key that sorts in descending order.
pub fn str_chunk_key_desc(b: &[u8], chunk: u64) -> (r: u64)
    requires
        chunk < 0x10_0000_0000,
    ensures
        r == reversed_key(chunk_key_of(b@, chunk as int)),
{
    let k: u64 = str_chunk_key(b, chunk);
    proof {
        lemma_chunk_key(b@, chunk as int);
    }
    0xFFFF_FFFF_FFFF_FF07 - k
}

/// No chunk after `chunk` for a string of `len` bytes.
pub fn str_chunk_ends(len: u64, chunk: u64) -> (r: bool)
    requires
        chunk < 0x10_0000_0000,
    ensures
        r == (chunk + 1 >= chunk_count(len as int)),
{
    chunk * STR_CHUNK_BYTES + STR_CHUNK_BYTES > len
}

/// Three-way compare from byte `off` on; the strings agree before it.
pub fn str_compare_from(a: &[u8], b: &[u8], off: u64) -> (r: i32)
    requires
        same_below(a@, b@, off as int) || a@ == b@,
    ensures
        r < 0 <==> !bytes_le(b@, a@),
        r > 0 <==> !bytes_le(a@, b@),
        -1 <= r <= 1,
{
    let n: usize = if a.len() < b.len() {
        a.len()
    } else {
        b.len()
    };
    let mut i: usize = if off < n as u64 {
        off as usize
    } else {
        n
    };
    while i < n && a[i] == b[i]
        invariant
            i <= n,
            n <= a@.len(),
            n <= b@.len(),
            same_below(a@, b@, i as int),
        decreases n - i,
    {
        i += 1;
    }
    proof {
        lemma_bytes_skip(a@, b@, 0, i as int);
        lemma_bytes_skip(b@, a@, 0, i as int);
    }
    if i < n {
        if a[i] < b[i] {
            -1
        } else {
            1
        }
    } else if a.len() < b.len() {
        -1
    } else if a.len() > b.len() {
        1
    } else {
        0
    }
}

/// The bytes of each string that a compare from `off` looks at: up to the first
/// that differs, or the whole common length.
pub open spec fn examined(a: Seq<u8>, b: Seq<u8>, off: int) -> int
    decreases a.len() - off,
{
    if off >= a.len() || off >= b.len() {
        0
    } else if a[off] != b[off] {
        1
    } else {
        1 + examined(a, b, off + 1)
    }
}

/// The bytes of each string that a compare from `off` looks at.
pub fn str_examined(a: &[u8], b: &[u8], off: u64) -> (r: u64)
    ensures
        r == examined(a@, b@, off as int),
        r <= a@.len(),
{
    let n: usize = if a.len() < b.len() {
        a.len()
    } else {
        b.len()
    };
    if off >= n as u64 {
        return 0;
    }
    let start: usize = off as usize;
    let mut i: usize = start;
    while i < n && a[i] == b[i]
        invariant
            start <= i <= n,
            n <= a@.len(),
            n <= b@.len(),
            n == a@.len() || n == b@.len(),
            examined(a@, b@, start as int) == (i - start) + examined(a@, b@, i as int),
        decreases n - i,
    {
        i += 1;
    }
    if i < n {
        (i - start) as u64 + 1
    } else {
        (i - start) as u64
    }
}

/// The bytes that a chunk key of a string of `len` bytes is loaded from: eight
/// at once where there are as many, what is left otherwise.
pub open spec fn loaded(len: int, chunk: int) -> int {
    if 7 * chunk + 8 <= len {
        8
    } else if 7 * chunk < len {
        len - 7 * chunk
    } else {
        0
    }
}

/// The bytes that a chunk key is loaded from.
pub fn str_chunk_bytes(len: u64, chunk: u64) -> (r: u64)
    ensures
        r == loaded(len as int, chunk as int),
{
    if chunk > len / STR_CHUNK_BYTES {
        return 0;
    }
    let off: u64 = chunk * STR_CHUNK_BYTES;
    if off >= len {
        0
    } else if len - off >= 8 {
        8
    } else {
        len - off
    }
}

} // verus!
