use vstd::prelude::*;

verus! {

/// The number of bits of a mask.
pub const MAX_GROUP_COUNT: usize = 64;

/// Bit `b` of `m` is set.
pub open spec fn has_bit(m: u64, b: int) -> bool {
    0 <= b < 64 && (m >> (b as u64)) & 1u64 == 1u64
}

proof fn lemma_or_bit(m: u64, i: u64, b: u64)
    requires
        i < 64,
        b < 64,
    ensures
        ((m | (1u64 << i)) >> b) & 1u64 == 1u64 <==> ((m >> b) & 1u64 == 1u64 || b == i),
{
    assert(((m | (1u64 << i)) >> b) & 1u64 == 1u64 <==> ((m >> b) & 1u64 == 1u64 || b == i)) by (bit_vector)
        requires
            i < 64,
            b < 64,
    ;
}

proof fn lemma_not_bit(m: u64, b: u64)
    requires
        b < 64,
    ensures
        ((!m) >> b) & 1u64 == 1u64 <==> !((m >> b) & 1u64 == 1u64),
{
    assert(((!m) >> b) & 1u64 == 1u64 <==> !((m >> b) & 1u64 == 1u64)) by (bit_vector)
        requires
            b < 64,
    ;
}

proof fn lemma_zero_bits(b: u64)
    requires
        b < 64,
    ensures
        !((0u64 >> b) & 1u64 == 1u64),
{
    assert(!((0u64 >> b) & 1u64 == 1u64)) by (bit_vector);
}

proof fn lemma_and_or_bits(x: u64, y: u64, b: u64)
    requires
        b < 64,
    ensures
        ((x | y) >> b) & 1u64 == 1u64 <==> ((x >> b) & 1u64 == 1u64 || (y >> b) & 1u64 == 1u64),
        ((x & y) >> b) & 1u64 == 1u64 <==> ((x >> b) & 1u64 == 1u64 && (y >> b) & 1u64 == 1u64),
{
    assert(((x | y) >> b) & 1u64 == 1u64 <==> ((x >> b) & 1u64 == 1u64 || (y >> b) & 1u64 == 1u64))
        by (bit_vector);
    assert(((x & y) >> b) & 1u64 == 1u64 <==> ((x >> b) & 1u64 == 1u64 && (y >> b) & 1u64 == 1u64))
        by (bit_vector);
}

/// The mask with the bits `from..to` set.
pub open spec fn range_bits(from: int, to: int) -> u64
    decreases to - from,
{
    if to <= from {
        0
    } else {
        range_bits(from, to - 1) | (1u64 << ((to - 1) as u64))
    }
}

/// A set of bits: bit `i` stands for the `i`-th storage of a group family.
#[derive(Clone, Copy, PartialEq, Eq, Structural, Debug, Hash, Default)]
pub struct GroupMask(pub u64);

/// The mask of the storages a view or query takes part in.
pub type StorageMask = GroupMask;

impl GroupMask {
    pub open spec fn bit(self, b: int) -> bool {
        has_bit(self.0, b)
    }

    pub fn empty() -> (r: GroupMask)
        ensures
            forall|b: int| !(#[trigger] r.bit(b)),
            r.0 == 0,
    {
        proof {
            assert forall|b: int| !(#[trigger] GroupMask(0).bit(b)) by {
                if 0 <= b < 64 {
                    lemma_zero_bits(b as u64);
                }
            }
        }
        GroupMask(0)
    }

    /// The bits `from..to`.
    pub fn from_to(from: usize, to: usize) -> (r: GroupMask)
        requires
            from <= to <= MAX_GROUP_COUNT,
        ensures
            forall|b: int| #[trigger] r.bit(b) <==> from <= b < to,
            r.0 == range_bits(from as int, to as int),
    {
        let mut m: u64 = 0;
        let mut i: usize = from;
        proof {
            assert forall|b: int| #[trigger] has_bit(m, b) <==> from <= b < i by {
                if 0 <= b < 64 {
                    lemma_zero_bits(b as u64);
                }
            }
        }
        while i < to
            invariant
                from <= i <= to <= 64,
                forall|b: int| #[trigger] has_bit(m, b) <==> from <= b < i,
                m == range_bits(from as int, i as int),
            decreases to - i,
        {
            let ghost old_m = m;
            m = m | (1u64 << (i as u64));
            proof {
                assert forall|b: int| #[trigger] has_bit(m, b) <==> from <= b < i + 1 by {
                    if 0 <= b < 64 {
                        lemma_or_bit(old_m, i as u64, b as u64);
                        assert(has_bit(old_m, b) <==> from <= b < i);
                    }
                }
            }
            i = i + 1;
        }
        GroupMask(m)
    }

    /// Every bit but `from..to`.
    pub fn skip_from_to(from: usize, to: usize) -> (r: GroupMask)
        requires
            from <= to <= MAX_GROUP_COUNT,
        ensures
            forall|b: int| 0 <= b < 64 ==> (#[trigger] r.bit(b) <==> !(from <= b < to)),
            r.0 == !range_bits(from as int, to as int),
    {
        let m = GroupMask::from_to(from, to);
        proof {
            assert forall|b: int| 0 <= b < 64 implies (#[trigger] GroupMask(!m.0).bit(b) <==> !(from <= b < to)) by {
                lemma_not_bit(m.0, b as u64);
                assert(m.bit(b) <==> from <= b < to);
            }
        }
        GroupMask(!m.0)
    }

    pub fn union(self, other: GroupMask) -> (r: GroupMask)
        ensures
            forall|b: int| #[trigger] r.bit(b) <==> self.bit(b) || other.bit(b),
            r.0 == self.0 | other.0,
    {
        proof {
            assert forall|b: int| #[trigger] GroupMask(self.0 | other.0).bit(b) <==> self.bit(b) || other.bit(b) by {
                if 0 <= b < 64 {
                    lemma_and_or_bits(self.0, other.0, b as u64);
                }
            }
        }
        GroupMask(self.0 | other.0)
    }

    pub fn intersection(self, other: GroupMask) -> (r: GroupMask)
        ensures
            forall|b: int| #[trigger] r.bit(b) <==> self.bit(b) && other.bit(b),
            r.0 == self.0 & other.0,
    {
        proof {
            assert forall|b: int| #[trigger] GroupMask(self.0 & other.0).bit(b) <==> self.bit(b) && other.bit(b) by {
                if 0 <= b < 64 {
                    lemma_and_or_bits(self.0, other.0, b as u64);
                }
            }
        }
        GroupMask(self.0 & other.0)
    }

    /// The indexes of the set bits, in increasing order.
    pub fn iter_bit_indexes(self) -> (r: Vec<u32>)
        ensures
            forall|k: int| 0 <= k < r@.len() ==> self.bit(#[trigger] r@[k] as int),
            forall|k: int, l: int| 0 <= k < l < r@.len() ==> #[trigger] r@[k] < #[trigger] r@[l],
            forall|b: int| #[trigger] self.bit(b) ==> r@.contains(b as u32),
    {
        let mut out: Vec<u32> = Vec::new();
        let mut b: u32 = 0;
        while b < 64
            invariant
                b <= 64,
                forall|k: int| 0 <= k < out@.len() ==> self.bit(#[trigger] out@[k] as int) && out@[k] < b,
                forall|k: int, l: int| 0 <= k < l < out@.len() ==> #[trigger] out@[k] < #[trigger] out@[l],
                forall|c: int| 0 <= c < b && #[trigger] self.bit(c) ==> out@.contains(c as u32),
            decreases 64 - b,
        {
            if (self.0 >> (b as u64)) & 1u64 == 1u64 {
                let ghost before = out@;
                out.push(b);
                proof {
                    assert forall|c: int| 0 <= c < b + 1 && #[trigger] self.bit(c) implies out@.contains(c as u32) by {
                        if c < b {
                            let k = choose|k: int| 0 <= k < before.len() && before[k] == c as u32;
                            assert(out@[k] == c as u32);
                        } else {
                            assert(out@[before.len() as int] == c as u32);
                        }
                    }
                }
            }
            b = b + 1;
        }
        out
    }
}

/// What a query asks of a group family: the storages it includes and those
/// it excludes.
#[derive(Clone, Copy, PartialEq, Eq, Structural, Debug, Hash, Default)]
pub struct QueryMask {
    pub included: StorageMask,
    pub excluded: StorageMask,
}

/// The mask of a query for exactly the first `arity` storages of a family.
pub open spec fn including_mask(arity: int) -> QueryMask {
    QueryMask { included: GroupMask(range_bits(0, arity)), excluded: GroupMask(0) }
}

/// The mask of a query for the first `prev_arity` storages of a family
/// without the storages `prev_arity..arity`.
pub open spec fn excluding_mask(prev_arity: int, arity: int) -> QueryMask {
    QueryMask { included: GroupMask(range_bits(0, prev_arity)), excluded: GroupMask(range_bits(prev_arity, arity)) }
}

impl QueryMask {
    pub fn new(included: StorageMask, excluded: StorageMask) -> (r: QueryMask)
        ensures
            r == (QueryMask { included, excluded }),
    {
        QueryMask { included, excluded }
    }

    /// The mask of a query that matches a group of `arity` storages exactly.
    pub fn including(arity: usize) -> (r: QueryMask)
        requires
            arity <= MAX_GROUP_COUNT,
        ensures
            forall|b: int| #[trigger] r.included.bit(b) <==> 0 <= b < arity,
            forall|b: int| !(#[trigger] r.excluded.bit(b)),
            r == including_mask(arity as int),
    {
        QueryMask { included: StorageMask::from_to(0, arity), excluded: StorageMask::empty() }
    }

    /// The mask of a query that includes the first `prev_arity` storages of
    /// a family and excludes the next ones up to `arity`.
    pub fn exclude(prev_arity: usize, arity: usize) -> (r: QueryMask)
        requires
            prev_arity <= arity <= MAX_GROUP_COUNT,
        ensures
            forall|b: int| #[trigger] r.included.bit(b) <==> 0 <= b < prev_arity,
            forall|b: int| #[trigger] r.excluded.bit(b) <==> prev_arity <= b < arity,
            r == excluding_mask(prev_arity as int, arity as int),
    {
        QueryMask { included: StorageMask::from_to(0, prev_arity), excluded: StorageMask::from_to(prev_arity, arity) }
    }
}

} // verus!
