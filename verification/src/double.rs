//! Double-precision numbers, carried as bit patterns and put in order.

use vstd::prelude::*;

verus! {

/// A double-precision number, as its IEEE 754 bit pattern.
#[derive(Debug, Clone, Copy, PartialEq, Eq, Structural)]
pub struct Double {
    pub bits: u64,
}

impl Double {
    /// Where the number stands in the total order of IEEE 754: positive patterns by magnitude,
    /// below them the negative ones by falling magnitude. Zero comes after negative zero, and a
    /// NaN stands at the end that its sign says.
    pub open spec fn rank(self) -> int {
        if self.bits < 0x8000000000000000 {
            self.bits as int
        } else {
            0x7fffffffffffffff - self.bits
        }
    }

    /// Where the number stands in the total order.
    pub fn order_key(self) -> (r: i128)
        ensures
            r == self.rank(),
    {
        if self.bits < 0x8000000000000000 {
            self.bits as i128
        } else {
            0x7fffffffffffffff - self.bits as i128
        }
    }
}

/// Numbers that stand in one place have one pattern: the order is total.
pub proof fn law_order_is_total(a: Double, b: Double)
    ensures
        a.rank() == b.rank() <==> a == b,
        a.rank() < b.rank() || b.rank() < a.rank() || a == b,
{
}

/// The order is that of the numbers: without the sign bit the larger pattern is the larger number,
/// with it the smaller one, and whatever has it comes before whatever has not.
pub proof fn law_order_is_that_of_the_numbers(a: Double, b: Double)
    ensures
        a.bits <= 0x7fff_ffff_ffff_ffff && b.bits <= 0x7fff_ffff_ffff_ffff ==> (a.rank() < b.rank()
            <==> a.bits < b.bits),
        a.bits > 0x7fff_ffff_ffff_ffff && b.bits > 0x7fff_ffff_ffff_ffff ==> (a.rank() < b.rank()
            <==> a.bits > b.bits),
        a.bits > 0x7fff_ffff_ffff_ffff && b.bits <= 0x7fff_ffff_ffff_ffff ==> a.rank() < b.rank(),
{
}

} // verus!
