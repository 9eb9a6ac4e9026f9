//! A mean/standard-deviation pair with a linear unit-scaling operation.

use crate::decimal::pow10;
use crate::decimal::spec_dec_add;
use crate::decimal::spec_dec_mul;
use crate::decimal::Dec;
use vstd::prelude::*;

verus! {

/// A mean and a standard deviation, both in the same unit.
#[derive(Clone, Copy, Debug, Hash, PartialEq, Eq, Structural)]
pub struct AvgStd {
    pub avg: Dec,
    pub std: Dec,
}

/// The pair scaled by `k`: both fields multiplied by the same factor.
pub open spec fn spec_avgstd_mul(a: AvgStd, k: Dec) -> AvgStd {
    AvgStd { avg: spec_dec_mul(a.avg, k), std: spec_dec_mul(a.std, k) }
}

impl AvgStd {
    /// The mean shifted by `std_multiplier` standard deviations:
    /// `avg + std * std_multiplier`, computed exactly. The bounds keep the
    /// intermediate mantissas inside a `u64`.
    pub fn with_nstd(&self, std_multiplier: &Dec) -> (r: Dec)
        requires
            self.std.mant * std_multiplier.mant <= u64::MAX,
            i32::MIN <= self.std.scale + std_multiplier.scale <= i32::MAX,
            ({
                let p = spec_dec_mul(self.std, *std_multiplier);
                let s = if self.avg.scale <= p.scale {
                    self.avg.scale as int
                } else {
                    p.scale as int
                };
                self.avg.mant * pow10((self.avg.scale - s) as nat) + p.mant * pow10(
                    (p.scale - s) as nat,
                ) <= u64::MAX
            }),
        ensures
            r == spec_dec_add(self.avg, spec_dec_mul(self.std, *std_multiplier)),
    {
        let scaled = self.std.mul(std_multiplier);
        self.avg.add(&scaled)
    }

    /// The pair scaled by `rhs`: scaling is linear, so each field is
    /// multiplied by the factor on its own.
    pub fn mul(&self, rhs: &Dec) -> (r: AvgStd)
        requires
            self.avg.mant * rhs.mant <= u64::MAX,
            self.std.mant * rhs.mant <= u64::MAX,
            i32::MIN <= self.avg.scale + rhs.scale <= i32::MAX,
            i32::MIN <= self.std.scale + rhs.scale <= i32::MAX,
        ensures
            r == spec_avgstd_mul(*self, *rhs),
    {
        AvgStd { avg: self.avg.mul(rhs), std: self.std.mul(rhs) }
    }
}

/// Scaling a pair is linear: the scaled pair's mean is exactly the scaled
/// mean, and its standard deviation exactly the scaled standard deviation,
/// for every decimal factor.
pub proof fn lemma_avgstd_mul_linear(a: AvgStd, k: Dec)
    ensures
        spec_avgstd_mul(a, k).avg == spec_dec_mul(a.avg, k),
        spec_avgstd_mul(a, k).std == spec_dec_mul(a.std, k),
{
}

} // verus!
