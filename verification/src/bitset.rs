use vstd::prelude::*;

verus! {

/// A set of at most 64 small positions, stored as the bits of a `u64`.
/// Position `p` is held by bit `p - offset`.
pub struct BitSet64 {
    pub bitset: u64,
    pub offset: u8,
}

impl BitSet64 {
    /// Whether `position` can be stored in this set.
    pub open spec fn in_range(&self, position: u8) -> bool {
        self.offset <= position < self.offset + 64
    }

    /// Whether bit `position - offset` is set.
    pub open spec fn contains(&self, position: u8) -> bool {
        (self.bitset >> ((position - self.offset) as u64)) & 1 == 1
    }

    /// Sets a specific bit inside the set to 1 (true).
    pub fn insert(&mut self, position: u8)
        requires
            old(self).in_range(position),
        ensures
            final(self).offset == old(self).offset,
            final(self).bitset == old(self).bitset | (1u64 << ((position - old(self).offset) as u64)),
            final(self).contains(position),
            forall|p: u8|
                old(self).in_range(p) && p != position ==> final(self).contains(p) == old(
                    self,
                ).contains(p),
    {
        let shift: u64 = (position - self.offset) as u64;
        let old_bits = self.bitset;
        self.bitset = self.bitset | (1u64 << shift);
        let new_bits = self.bitset;
        assert((new_bits >> shift) & 1 == 1) by (bit_vector)
            requires
                new_bits == old_bits | (1u64 << shift),
                shift < 64,
        ;
        assert forall|p: u8| self.in_range(p) && p != position implies self.contains(p) == old(
            self,
        ).contains(p) by {
            let s2: u64 = (p - self.offset) as u64;
            assert(((new_bits >> s2) & 1 == 1) == ((old_bits >> s2) & 1 == 1)) by (bit_vector)
                requires
                    new_bits == old_bits | (1u64 << shift),
                    shift < 64,
                    s2 < 64,
                    s2 != shift,
            ;
        }
    }

    /// Sets a specific bit inside the set to 0 (false).
    pub fn remove(&mut self, position: u8)
        requires
            old(self).in_range(position),
        ensures
            final(self).offset == old(self).offset,
            final(self).bitset == old(self).bitset & !(1u64 << ((position - old(self).offset) as u64)),
            !final(self).contains(position),
            forall|p: u8|
                old(self).in_range(p) && p != position ==> final(self).contains(p) == old(
                    self,
                ).contains(p),
    {
        let shift: u64 = (position - self.offset) as u64;
        let old_bits = self.bitset;
        self.bitset = self.bitset & !(1u64 << shift);
        let new_bits = self.bitset;
        assert((new_bits >> shift) & 1 != 1) by (bit_vector)
            requires
                new_bits == old_bits & !(1u64 << shift),
                shift < 64,
        ;
        assert forall|p: u8| self.in_range(p) && p != position implies self.contains(p) == old(
            self,
        ).contains(p) by {
            let s2: u64 = (p - self.offset) as u64;
            assert(((new_bits >> s2) & 1 == 1) == ((old_bits >> s2) & 1 == 1)) by (bit_vector)
                requires
                    new_bits == old_bits & !(1u64 << shift),
                    shift < 64,
                    s2 < 64,
                    s2 != shift,
            ;
        }
    }

    /// Gets the value of a specific bit.
    pub fn get(&self, position: u8) -> (r: bool)
        requires
            self.in_range(position),
        ensures
            r == self.contains(position),
    {
        let shifted = self.bitset >> (position - self.offset) as u64;
        assert((1 & shifted == 1) == (shifted & 1 == 1)) by (bit_vector);
        1 & shifted == 1
    }
}

} // verus!
