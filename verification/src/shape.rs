//! The shape of a key: its leaves, in order.
//!
//! Every key type reports its shape: a sequence of at most 32 leaves, each a
//! fixed part of some bit width or a byte string, each possibly reversed. The
//! record type the sort uses is chosen from the shape, so a key of two `i32`
//! packs into one 64-bit radix value while a key with a string part takes a
//! composite record.
use vstd::prelude::*;

verus! {

/// One leaf of a key.
#[derive(Clone, Copy, Debug, PartialEq, Eq, Structural)]
pub struct Part {
    /// A byte string (compared lexicographically as unsigned bytes) rather
    /// than a fixed part.
    pub bytes: bool,
    /// The width of a fixed part in bits, 1..=64; 0 for a byte string.
    pub bits: u8,
    /// The leaf sorts in descending order.
    pub desc: bool,
}

impl Default for Part {
    fn default() -> (r: Self)
        ensures
            r == (Part { bytes: false, bits: 0, desc: false }),
    {
        Part { bytes: false, bits: 0, desc: false }
    }
}

/// A fixed leaf of `bits` bits.
pub open spec fn fixed_part(bits: u8) -> Part {
    Part { bytes: false, bits, desc: false }
}

/// A byte-string leaf.
pub open spec fn bytes_part() -> Part {
    Part { bytes: true, bits: 0, desc: false }
}

/// The leaf in the other direction.
pub open spec fn reversed_part(p: Part) -> Part {
    Part { desc: !p.desc, ..p }
}

/// Every leaf in the other direction.
pub open spec fn reversed_parts(s: Seq<Part>) -> Seq<Part> {
    s.map_values(|p: Part| reversed_part(p))
}

/// `s` repeated `count` times.
pub open spec fn repeated(s: Seq<Part>, count: nat) -> Seq<Part>
    decreases count,
{
    if count == 0 {
        Seq::empty()
    } else {
        repeated(s, (count - 1) as nat) + s
    }
}

/// The sum of the widths.
pub open spec fn width_sum(s: Seq<Part>) -> int
    decreases s.len(),
{
    if s.len() == 0 {
        0
    } else {
        width_sum(s.drop_last()) + s.last().bits
    }
}

/// No byte-string leaf.
pub open spec fn none_bytes(s: Seq<Part>) -> bool {
    forall|i: int| 0 <= i < s.len() ==> !(#[trigger] s[i]).bytes
}

/// The most leaves a key may have.
pub const MAX_PARTS: usize = 32;

/// The leaves of a key type, in order.
#[derive(Clone, Copy, Debug)]
pub struct Shape {
    /// The leaves; only the first `n` are meaningful.
    pub parts: [Part; 32],
    /// The number of leaves. More than `MAX_PARTS` is recorded as
    /// `MAX_PARTS + 1` and rejected when the key is sorted.
    pub n: usize,
}

impl Shape {
    /// The shape says that the leaves are `s`; of more than `MAX_PARTS` it says
    /// only that they are too many.
    pub open spec fn describes(&self, s: Seq<Part>) -> bool {
        if s.len() <= MAX_PARTS {
            self.n == s.len() && self.parts@.take(s.len() as int) == s
        } else {
            self.n == MAX_PARTS + 1
        }
    }

    /// The leaves that are recorded.
    pub open spec fn leaves(&self) -> Seq<Part> {
        self.parts@.take(if self.n <= MAX_PARTS {
            self.n as int
        } else {
            MAX_PARTS as int
        })
    }

    /// No leaf.
    fn empty() -> (r: Shape)
        ensures
            r.describes(Seq::empty()),
    {
        let none = Part { bytes: false, bits: 0, desc: false };
        let r = Shape { parts: [none; 32], n: 0 };
        assert(r.parts@.take(0) =~= Seq::<Part>::empty());
        r
    }

    /// A single fixed leaf of `bits` bits.
    pub fn fixed(bits: u8) -> (r: Shape)
        ensures
            r.describes(seq![fixed_part(bits)]),
    {
        let mut s = Shape::empty();
        s.parts[0] = Part { bytes: false, bits, desc: false };
        s.n = 1;
        assert(s.parts@.take(1) =~= seq![fixed_part(bits)]);
        s
    }

    /// A single byte-string leaf.
    pub fn bytes() -> (r: Shape)
        ensures
            r.describes(seq![bytes_part()]),
    {
        let mut s = Shape::empty();
        s.parts[0] = Part { bytes: true, bits: 0, desc: false };
        s.n = 1;
        assert(s.parts@.take(1) =~= seq![bytes_part()]);
        s
    }

    /// The leaves of `a` followed by the leaves of `b`.
    pub fn concat(a: &Shape, b: &Shape) -> (r: Shape)
        requires
            a.n <= MAX_PARTS + 1,
            b.n <= MAX_PARTS + 1,
        ensures
            r.n <= MAX_PARTS + 1,
            forall|x: Seq<Part>, y: Seq<Part>| #[trigger] a.describes(x) && #[trigger] b.describes(y) ==> r.describes(x + y),
    {
        let mut s: Shape = *a;
        let an: usize = a.n;
        let mut i: usize = 0;
        while i < b.n && i < MAX_PARTS
            invariant
                i <= MAX_PARTS,
                i <= b.n,
                an == a.n,
                an <= MAX_PARTS + 1,
                forall|k: int| 0 <= k < an && k < MAX_PARTS ==> s.parts[k] == a.parts[k],
                forall|k: int| 0 <= k < i && an + k < MAX_PARTS ==> #[trigger] s.parts[an + k] == b.parts[k],
            decreases MAX_PARTS - i,
        {
            if an + i < MAX_PARTS {
                s.parts[an + i] = b.parts[i];
            }
            i += 1;
        }
        let n: usize = an + b.n;
        s.n = if n > MAX_PARTS {
            MAX_PARTS + 1
        } else {
            n
        };
        proof {
            assert forall|x: Seq<Part>, y: Seq<Part>| #[trigger] a.describes(x) && #[trigger] b.describes(y) implies s.describes(x + y) by {
                if x.len() + y.len() <= MAX_PARTS {
                    assert forall|k: int| 0 <= k < x.len() + y.len() implies s.parts[k] == (x + y)[k] by {
                        if k < x.len() {
                            assert(a.parts@.take(x.len() as int)[k] == x[k]);
                        } else {
                            assert(b.parts@.take(y.len() as int)[k - x.len()] == y[k - x.len()]);
                            assert(s.parts[an + (k - x.len())] == b.parts[k - x.len()]);
                        }
                    }
                    assert(s.parts@.take((x + y).len() as int) =~= x + y);
                }
            }
        }
        s
    }

    /// `s` repeated `count` times (the shape of an array of keys).
    pub fn repeat(s: &Shape, count: usize) -> (r: Shape)
        requires
            s.n <= MAX_PARTS + 1,
        ensures
            r.n <= MAX_PARTS + 1,
            forall|x: Seq<Part>| #[trigger] s.describes(x) ==> r.describes(repeated(x, count as nat)),
    {
        let mut out = Shape::empty();
        let mut i: usize = 0;
        while i < count
            invariant
                i <= count,
                s.n <= MAX_PARTS + 1,
                out.n <= MAX_PARTS + 1,
                forall|x: Seq<Part>| #[trigger] s.describes(x) ==> out.describes(repeated(x, i as nat)),
            decreases count - i,
        {
            out = Shape::concat(&out, s);
            i += 1;
        }
        out
    }

    /// `r` is the shape with every leaf in the other direction. Entries that are
    /// not meaningful stay as they are; of too many leaves those that are kept
    /// are turned.
    pub open spec fn is_turned(&self, r: Shape) -> bool {
        &&& r.n == self.n
        &&& forall|k: int|
            0 <= k < MAX_PARTS ==> #[trigger] r.parts[k] == if k < self.n {
                reversed_part(self.parts[k])
            } else {
                self.parts[k]
            }
    }

    /// Every leaf reversed.
    pub fn reversed(&self) -> (r: Shape)
        requires
            self.n <= MAX_PARTS + 1,
        ensures
            self.is_turned(r),
            forall|x: Seq<Part>| #[trigger] self.describes(x) ==> r.describes(reversed_parts(x)),
    {
        let mut s: Shape = *self;
        let mut i: usize = 0;
        while i < s.n && i < MAX_PARTS
            invariant
                i <= MAX_PARTS,
                i <= s.n,
                s.n == self.n,
                forall|k: int| 0 <= k < i ==> s.parts[k] == reversed_part(#[trigger] self.parts[k]),
                forall|k: int| i <= k < MAX_PARTS ==> s.parts[k] == self.parts[k],
            decreases MAX_PARTS - i,
        {
            let p: Part = s.parts[i];
            s.parts[i] = Part { bytes: p.bytes, bits: p.bits, desc: !p.desc };
            i += 1;
        }
        proof {
            assert forall|x: Seq<Part>| #[trigger] self.describes(x) implies s.describes(reversed_parts(x)) by {
                if x.len() <= MAX_PARTS {
                    assert forall|k: int| 0 <= k < x.len() implies s.parts[k] == reversed_parts(x)[k] by {
                        assert(self.parts@.take(x.len() as int)[k] == x[k]);
                    }
                    assert(s.parts@.take(x.len() as int) =~= reversed_parts(x));
                }
            }
        }
        s
    }

    /// Between one and `MAX_PARTS` leaves.
    pub fn is_valid(&self) -> (r: bool)
        ensures
            r == (1 <= self.n <= MAX_PARTS),
    {
        self.n >= 1 && self.n <= MAX_PARTS
    }

    /// No byte-string leaf.
    pub fn all_fixed(&self) -> (r: bool)
        ensures
            r == none_bytes(self.leaves()),
    {
        let mut i: usize = 0;
        while i < self.n && i < MAX_PARTS
            invariant
                i <= MAX_PARTS,
                i <= self.n,
                forall|k: int| 0 <= k < i ==> !(#[trigger] self.parts[k]).bytes,
            decreases MAX_PARTS - i,
        {
            if self.parts[i].bytes {
                assert(self.leaves()[i as int].bytes);
                return false;
            }
            i += 1;
        }
        proof {
            assert forall|k: int| 0 <= k < self.leaves().len() implies !(#[trigger] self.leaves()[k]).bytes by {
                assert(!self.parts[k].bytes);
            }
        }
        true
    }

    /// Some byte-string leaf.
    pub fn has_bytes(&self) -> (r: bool)
        ensures
            r == !none_bytes(self.leaves()),
    {
        !self.all_fixed()
    }

    /// The sum of the fixed leaves' widths.
    pub fn total_bits(&self) -> (r: u32)
        ensures
            r == width_sum(self.leaves()),
    {
        let mut b: u32 = 0;
        let mut i: usize = 0;
        while i < self.n && i < MAX_PARTS
            invariant
                i <= MAX_PARTS,
                i <= self.n,
                b <= 255 * i,
                b == width_sum(self.parts@.take(i as int)),
            decreases MAX_PARTS - i,
        {
            proof {
                let t = self.parts@.take(i + 1);
                assert(t.drop_last() =~= self.parts@.take(i as int));
                assert(t.last() == self.parts[i as int]);
            }
            b += self.parts[i].bits as u32;
            i += 1;
        }
        b
    }

    /// The `i`-th leaf.
    pub fn part(&self, i: usize) -> (r: Part)
        requires
            i < MAX_PARTS,
        ensures
            r == self.parts[i as int],
    {
        self.parts[i]
    }

    /// The kind code of leaf `i`: 0 fixed, 1 bytes, 2 bytes reversed.
    pub fn kind(&self, i: usize) -> (r: u8)
        requires
            i < MAX_PARTS,
        ensures
            r == kind_of(self.parts[i as int]),
    {
        let p: Part = self.parts[i];
        if !p.bytes {
            0
        } else if p.desc {
            2
        } else {
            1
        }
    }
}

/// The kind code of a leaf.
pub open spec fn kind_of(p: Part) -> u8 {
    if !p.bytes {
        0
    } else if p.desc {
        2
    } else {
        1
    }
}

/// A shape that is turned twice is the shape again.
pub proof fn turned_twice_is_the_shape(s: Shape, once: Shape, twice: Shape)
    requires
        s.is_turned(once),
        once.is_turned(twice),
    ensures
        twice.n == s.n,
        twice.parts@ == s.parts@,
{
    assert forall|k: int| 0 <= k < MAX_PARTS implies twice.parts@[k] == s.parts@[k] by {
        assert(once.parts[k] == if k < s.n {
            reversed_part(s.parts[k])
        } else {
            s.parts[k]
        });
        assert(twice.parts[k] == if k < once.n {
            reversed_part(once.parts[k])
        } else {
            once.parts[k]
        });
    }
    assert(twice.parts@ =~= s.parts@);
}

} // verus!
