//! Exact rational values.
//!
//! Fee rates, conditional probabilities and fee fractions are quotients of
//! machine integers. Holding them as a numerator/denominator pair keeps every
//! comparison exact: there is no rounding step anywhere in the analysis, and
//! an undefined quotient (division by zero) is represented by the absence of
//! a `Ratio`, never by a made-up default.

use vstd::prelude::*;

verus! {

/// A non-negative rational number `num / den`. Well-formed values have
/// `den > 0`; an undefined quotient is expressed as `Option::<Ratio>::None`
/// by the code that would otherwise divide by zero.
#[derive(Clone, Copy, Debug, PartialEq, Eq, Structural)]
pub struct Ratio {
    pub num: u128,
    pub den: u128,
}

impl Ratio {
    /// Denominators must be positive for the value to denote a quotient.
    pub open spec fn wf(self) -> bool {
        self.den > 0
    }

    pub fn new(num: u128, den: u128) -> (r: Ratio)
        requires
            den > 0,
        ensures
            r == (Ratio { num, den }),
            r.wf(),
    {
        Ratio { num, den }
    }
}

/// `a <= b` as rationals, by cross multiplication.
pub open spec fn ratio_le(a: Ratio, b: Ratio) -> bool {
    a.num * b.den <= b.num * a.den
}

/// `a < b` as rationals, by cross multiplication.
pub open spec fn ratio_lt(a: Ratio, b: Ratio) -> bool {
    a.num * b.den < b.num * a.den
}

/// The quotient `fee / weight` lies strictly below `r`.
pub open spec fn fee_rate_below(fee: u64, weight: u64, r: Ratio) -> bool {
    fee * r.den < r.num * weight
}

/// Decides `fee / weight < r` exactly.
///
/// The denominator bound keeps the left cross product inside `u128`; the
/// right one is checked, and an overflowing right side can only mean the
/// threshold side is the larger product.
pub fn fee_rate_lt_ratio(fee: u64, weight: u64, r: &Ratio) -> (b: bool)
    requires
        r.wf(),
        r.den <= u64::MAX,
    ensures
        b == fee_rate_below(fee, weight, *r),
{
    proof {
        assert((fee as u128) * r.den <= (u64::MAX as u128) * (u64::MAX as u128))
            by (nonlinear_arith)
            requires
                fee as u128 <= u64::MAX as u128,
                r.den <= u64::MAX as u128,
        ;
    }
    let lhs: u128 = (fee as u128) * r.den;
    match (weight as u128).checked_mul(r.num) {
        Some(rhs) => {
            let b = lhs < rhs;
            proof {
                assert(lhs == fee * r.den);
                assert(rhs == (weight as u128) * r.num);
                assert((weight as u128) * r.num == r.num * (weight as u128))
                    by (nonlinear_arith);
                assert(b == fee_rate_below(fee, weight, *r));
            }
            b
        },
        None => {
            // The right product does not fit in a `u128`, while the left one
            // is at most `u64::MAX * u64::MAX`, so the comparison is decided.
            proof {
                assert((fee as u128) * r.den < (weight as u128) * r.num) by {
                    assert((weight as u128) * r.num > u128::MAX);
                    assert((u64::MAX as u128) * (u64::MAX as u128) < u128::MAX as int)
                        by (nonlinear_arith);
                };
            }
            true
        },
    }
}

} // verus!
