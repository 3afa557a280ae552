//! Small arithmetic helpers.

use vstd::prelude::*;

verus! {

/// An aspect ratio: a pair of positive integers, numerator first.  It is
/// used only as a multiplier against an integer; the result is the floor
/// of the exact product.
#[derive(Clone, Copy, Debug, PartialEq, Eq, Structural)]
pub struct Rational(pub u32, pub u32);

impl Rational {
    /// The pair is a genuine ratio: both parts are positive.
    pub open spec fn wf(&self) -> bool {
        0 < self.0 && 0 < self.1
    }

    /// The floor of `rhs` scaled by the ratio.
    pub open spec fn mul_spec(&self, rhs: u32) -> int {
        (rhs as int * self.0 as int) / (self.1 as int)
    }

    /// Multiplies `rhs` by the ratio, rounding down.  The product is
    /// formed in 64 bits, so it cannot wrap for any 32-bit inputs.
    pub fn mul(&self, rhs: u32) -> (r: u32)
        requires
            self.wf(),
            self.mul_spec(rhs) <= u32::MAX,
        ensures
            r == self.mul_spec(rhs),
    {
        proof {
            assert((rhs as int) * (self.0 as int) <= 0xffffffff * 0xffffffff) by (nonlinear_arith)
                requires
                    rhs <= 0xffffffffu32,
                    self.0 <= 0xffffffffu32,
            ;
        }
        let wide = (rhs as u64) * (self.0 as u64);
        let q = wide / (self.1 as u64);
        q as u32
    }
}

} // verus!
