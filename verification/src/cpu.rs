//! What the sort knows of the machine it runs on: cache sizes and the bit
//! extraction instruction.
use vstd::prelude::*;

verus! {

/// The data cache sizes of the core the sort runs on. They decide when a part
/// is too large for its radix passes to run in cache and how large the buckets
/// of the top-digit scatter should be.
#[derive(Clone, Copy, Debug, PartialEq, Eq, Structural)]
pub struct CacheSizes {
    /// First-level data cache.
    pub l1d: usize,
    /// Second level.
    pub l2: usize,
    /// Last level.
    pub l3: usize,
}

/// First-level data cache of a common desktop core.
pub const DEFAULT_L1D: usize = 0x8000;

/// Second-level cache of a common desktop core.
pub const DEFAULT_L2: usize = 0x10_0000;

/// Last-level cache of a common desktop core.
pub const DEFAULT_L3: usize = 0x200_0000;

impl Default for CacheSizes {
    fn default() -> (r: Self)
        ensures
            r == (CacheSizes { l1d: DEFAULT_L1D, l2: DEFAULT_L2, l3: DEFAULT_L3 }),
    {
        CacheSizes { l1d: DEFAULT_L1D, l2: DEFAULT_L2, l3: DEFAULT_L3 }
    }
}

/// The machine as the sort sees it.
#[derive(Clone, Copy, Debug, PartialEq, Eq, Structural)]
pub struct Machine {
    /// The caches.
    pub caches: CacheSizes,
    /// Selecting scattered key bits is cheap.
    pub bmi2: bool,
}

/// The machine that is taken where nothing is known of it.
pub open spec fn usual_machine() -> Machine {
    Machine { caches: CacheSizes { l1d: DEFAULT_L1D, l2: DEFAULT_L2, l3: DEFAULT_L3 }, bmi2: true }
}

impl Default for Machine {
    fn default() -> (r: Self)
        ensures
            r == usual_machine(),
    {
        Machine { caches: CacheSizes { l1d: DEFAULT_L1D, l2: DEFAULT_L2, l3: DEFAULT_L3 }, bmi2: true }
    }
}

// ---- reading the caches --------------------------------------------------------------------------

/// What the processor answers of one of its caches: three registers.
#[derive(Clone, Copy, Debug, PartialEq, Eq, Structural)]
pub struct CacheLeaf {
    pub eax: u32,
    pub ebx: u32,
    pub ecx: u32,
}

/// The caches are described by this question to the processor: one of its
/// extended questions where it has them, one of its first where it has that many,
/// and none otherwise.
pub open spec fn cache_question_of(most: u32, most_extended: u32, features: u32) -> Option<u32> {
    if most_extended >= 0x8000_001D && (features >> 22) & 1 == 1 {
        Some(0x8000_001Du32)
    } else if most < 4 {
        None
    } else {
        Some(4u32)
    }
}

/// The question that describes the caches.
pub fn cache_question(most: u32, most_extended: u32, features: u32) -> (r: Option<u32>)
    ensures
        r == cache_question_of(most, most_extended, features),
{
    if most_extended >= 0x8000_001D && (features >> 22) & 1 == 1 {
        Some(0x8000_001D)
    } else if most < 4 {
        None
    } else {
        Some(4)
    }
}

impl CacheLeaf {
    /// What the cache holds: 1 data, 2 instructions, 3 both, 0 for no cache.
    pub open spec fn holds(self) -> u32 {
        self.eax & 0x1F
    }

    /// The level of the cache.
    pub open spec fn level(self) -> u32 {
        (self.eax >> 5) & 7
    }

    /// Ways times partitions times line size times sets.
    pub open spec fn product(self) -> int {
        (((self.ebx >> 22) & 0x3FF) + 1) * (((self.ebx >> 12) & 0x3FF) + 1) * ((self.ebx & 0xFFF) + 1) * (self.ecx + 1)
    }

    /// The size of the cache; none where it cannot be counted.
    pub open spec fn bytes(self) -> int {
        if self.product() <= usize::MAX {
            self.product()
        } else {
            0
        }
    }

    fn size(&self) -> (r: usize)
        ensures
            r == self.bytes(),
    {
        let ebx: u32 = self.ebx;
        let a: u32 = (ebx >> 22) & 0x3FF;
        let b: u32 = (ebx >> 12) & 0x3FF;
        let c: u32 = ebx & 0xFFF;
        assert(a <= 0x3FF && b <= 0x3FF && c <= 0xFFF) by (bit_vector)
            requires
                a == (ebx >> 22) & 0x3FF,
                b == (ebx >> 12) & 0x3FF,
                c == ebx & 0xFFF,
        ;
        let x: u128 = a as u128 + 1;
        let y: u128 = b as u128 + 1;
        let z: u128 = c as u128 + 1;
        let w: u128 = self.ecx as u128 + 1;
        assert(x * y <= 0x10_0000) by (nonlinear_arith)
            requires
                x <= 0x400,
                y <= 0x400,
        ;
        assert(x * y * z <= 0x1_0000_0000) by (nonlinear_arith)
            requires
                x * y <= 0x10_0000,
                z <= 0x1000,
        ;
        assert(x * y * z * w <= 0x1_0000_0000_0000_0000) by (nonlinear_arith)
            requires
                x * y * z <= 0x1_0000_0000,
                w <= 0x1_0000_0000,
        ;
        let p: u128 = x * y * z * w;
        if p <= usize::MAX as u128 {
            p as usize
        } else {
            0
        }
    }
}

/// The answers up to the first that describes no cache.
pub open spec fn described(s: Seq<CacheLeaf>) -> Seq<CacheLeaf>
    decreases s.len(),
{
    if s.len() == 0 || s[0].holds() == 0 {
        Seq::empty()
    } else {
        seq![s[0]] + described(s.skip(1))
    }
}

/// The last data cache of a level that the answers describe.
pub open spec fn cache_at(s: Seq<CacheLeaf>, level: int) -> int
    decreases s.len(),
{
    if s.len() == 0 {
        0
    } else if s.last().holds() != 2 && s.last().level() == level {
        s.last().bytes()
    } else {
        cache_at(s.drop_last(), level)
    }
}

/// The size that was read, or the one of a common core where none was.
pub open spec fn or_default(size: int, default: usize) -> usize {
    if size != 0 {
        size as usize
    } else {
        default
    }
}

/// The cache sizes that the processor's answers describe, one answer for each of
/// its caches. Where nothing can be read the size is that of a common desktop
/// core.
pub fn detect_caches(leaves: &Vec<CacheLeaf>) -> (r: CacheSizes)
    ensures
        ({
            let s = described(leaves@);
            r == (CacheSizes {
                l1d: or_default(cache_at(s, 1), DEFAULT_L1D),
                l2: or_default(cache_at(s, 2), DEFAULT_L2),
                l3: or_default(cache_at(s, 3), DEFAULT_L3),
            })
        }),
{
    let mut l1d: usize = 0;
    let mut l2: usize = 0;
    let mut l3: usize = 0;
    let mut i: usize = 0;
    let ghost s = leaves@;
    assert(s.skip(0) =~= s);
    while i < leaves.len() && leaves[i].eax & 0x1F != 0
        invariant
            i <= leaves@.len(),
            s == leaves@,
            described(s) == s.take(i as int) + described(s.skip(i as int)),
            l1d == cache_at(s.take(i as int), 1),
            l2 == cache_at(s.take(i as int), 2),
            l3 == cache_at(s.take(i as int), 3),
        decreases leaves@.len() - i,
    {
        let leaf: CacheLeaf = leaves[i];
        if leaf.eax & 0x1F != 2 {
            let level: u32 = (leaf.eax >> 5) & 7;
            if level == 1 {
                l1d = leaf.size();
            } else if level == 2 {
                l2 = leaf.size();
            } else if level == 3 {
                l3 = leaf.size();
            }
        }
        i += 1;
        proof {
            assert(s.take(i as int).drop_last() =~= s.take(i - 1));
            assert(s.skip(i - 1).skip(1) =~= s.skip(i as int));
            assert(s.take(i as int) =~= s.take(i - 1) + seq![s[i - 1]]);
            assert(s.take(i - 1) + (seq![s[i - 1]] + described(s.skip(i as int))) =~= s.take(i as int) + described(s.skip(i as int)));
        }
    }
    assert(described(s) =~= s.take(i as int));
    CacheSizes {
        l1d: if l1d != 0 {
            l1d
        } else {
            DEFAULT_L1D
        },
        l2: if l2 != 0 {
            l2
        } else {
            DEFAULT_L2
        },
        l3: if l3 != 0 {
            l3
        } else {
            DEFAULT_L3
        },
    }
}

} // verus!
