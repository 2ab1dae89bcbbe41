//! Fixed-width bit vector used as the reachability signature of a module.
//!
//! The bit width equals the number of declared entry points; bit `i` records
//! whether entry point `i` transitively depends on the module. Two signatures
//! are equal iff every bit matches.

use vstd::prelude::*;

verus! {

/// Reachability signature: one bit per declared entry point.
pub struct BitSet {
    bits: Vec<bool>,
}

/// The all-zero signature of width `n`: unreachable from any entry.
pub open spec fn zero_bits(n: nat) -> Seq<bool> {
    Seq::new(n, |j: int| false)
}

/// The signature of width `n` with exactly bit `i` set: the seed signature
/// of the dedicated chunk of entry point `i`.
pub open spec fn singleton_bits(n: nat, i: int) -> Seq<bool> {
    Seq::new(n, |j: int| j == i)
}

impl View for BitSet {
    type V = Seq<bool>;

    closed spec fn view(&self) -> Seq<bool> {
        self.bits@
    }
}

impl BitSet {
    /// A fresh all-zero signature of width `len`.
    pub fn new(len: usize) -> (r: Self)
        ensures
            r@ == zero_bits(len as nat),
    {
        let mut bits: Vec<bool> = Vec::new();
        while bits.len() < len
            invariant
                bits@.len() <= len,
                forall|j: int| 0 <= j < bits@.len() ==> !bits@[j],
            decreases len - bits@.len(),
        {
            bits.push(false);
        }
        proof {
            assert(bits@ =~= zero_bits(len as nat));
        }
        BitSet { bits }
    }

    /// The bit width of this signature.
    pub fn len(&self) -> (r: usize)
        ensures
            r == self@.len(),
    {
        self.bits.len()
    }

    /// Sets bit `index`.
    pub fn set_bit(&mut self, index: usize)
        requires
            index < old(self)@.len(),
        ensures
            final(self)@ == old(self)@.update(index as int, true),
    {
        self.bits[index] = true;
    }

    /// Tests bit `index`.
    pub fn has_bit(&self, index: usize) -> (r: bool)
        requires
            index < self@.len(),
        ensures
            r == self@[index as int],
    {
        self.bits[index]
    }

    /// Exact equality: true iff every bit matches.
    pub fn same_bits(&self, other: &BitSet) -> (r: bool)
        ensures
            r == (self@ == other@),
    {
        if self.bits.len() != other.bits.len() {
            proof {
                assert(self@ != other@);
            }
            return false;
        }
        let mut i: usize = 0;
        while i < self.bits.len()
            invariant
                i <= self@.len(),
                self@.len() == other@.len(),
                forall|j: int| 0 <= j < i ==> self@[j] == other@[j],
            decreases self@.len() - i,
        {
            if self.bits[i] != other.bits[i] {
                proof {
                    assert(self@ != other@);
                }
                return false;
            }
            i += 1;
        }
        proof {
            assert(self@ =~= other@);
        }
        true
    }
}

impl Clone for BitSet {
    /// An exact copy: the clone has the same bits.
    fn clone(&self) -> (r: Self)
        ensures
            r@ == self@,
    {
        let mut bits: Vec<bool> = Vec::new();
        let mut i: usize = 0;
        while i < self.bits.len()
            invariant
                i <= self@.len(),
                bits@.len() == i,
                forall|j: int| 0 <= j < i ==> bits@[j] == self@[j],
            decreases self@.len() - i,
        {
            bits.push(self.bits[i]);
            i += 1;
        }
        proof {
            assert(bits@ =~= self@);
        }
        BitSet { bits }
    }
}

} // verus!
