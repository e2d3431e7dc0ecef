//! Ratio reporter: encoded bits against the fixed 8-bits-per-channel
//! baseline, as an exact rational percentage.

use vstd::prelude::*;

verus! {

/// An exact percentage: `numerator / denominator` percent.
pub struct Ratio {
    pub numerator: u128,
    pub denominator: u128,
}

impl Ratio {
    /// A reportable ratio divides by something.
    pub open spec fn wf(&self) -> bool {
        self.denominator > 0
    }
}

/// One channel's compression ratio in percent: encoded bits over
/// `width * height * 8`, times 100.
pub fn channel_ratio(bits: u64, width: u32, height: u32) -> (r: Ratio)
    requires
        width as int * height as int > 0,
    ensures
        r.numerator == bits as int * 100,
        r.denominator == width as int * height as int * 8,
        r.wf(),
{
    proof {
        assert(width as u128 * height as u128 == width as int * height as int) by (nonlinear_arith);
        assert(width as u128 * height as u128 <= u64::MAX as u128) by (nonlinear_arith)
            requires
                width <= u32::MAX && height <= u32::MAX,
        ;
    }
    Ratio {
        numerator: bits as u128 * 100,
        denominator: (width as u128) * (height as u128) * 8,
    }
}

/// The overall ratio: the arithmetic mean of the three channel ratios,
/// which is the combined bit count over `width * height * 24`, times
/// 100.
pub fn overall_ratio(red_bits: u64, green_bits: u64, blue_bits: u64, width: u32, height: u32) -> (r:
    Ratio)
    requires
        width as int * height as int > 0,
    ensures
        r.numerator == (red_bits as int + green_bits as int + blue_bits as int) * 100,
        r.denominator == width as int * height as int * 24,
        r.wf(),
{
    proof {
        assert(width as u128 * height as u128 == width as int * height as int) by (nonlinear_arith);
        assert(width as u128 * height as u128 <= u64::MAX as u128) by (nonlinear_arith)
            requires
                width <= u32::MAX && height <= u32::MAX,
        ;
    }
    Ratio {
        numerator: (red_bits as u128 + green_bits as u128 + blue_bits as u128) * 100,
        denominator: (width as u128) * (height as u128) * 24,
    }
}

} // verus!
