//! Slashing fractions.
//!
//! A destination's slashable fraction is a number in `[0, 1]`, held in parts
//! per billion so that products with token amounts stay exact and are
//! truncated (floored) at well-defined points, the way the accounting rules
//! demand.

use vstd::prelude::*;

verus! {

/// Scale of a `SlashRatio`: the representation of the fraction one.
pub const RATIO_ONE: u32 = 1_000_000_000;

/// A fraction in `[0, 1]`, in parts per billion.
#[derive(Debug, Clone, Copy, PartialEq, Eq, Structural)]
pub struct SlashRatio {
    pub ppb: u32,
}

impl SlashRatio {
    /// The fraction does not exceed one.
    pub open spec fn wf(self) -> bool {
        self.ppb <= RATIO_ONE
    }

    /// Builds the fraction `p / 100`.
    pub fn percent(p: u32) -> (r: SlashRatio)
        requires
            p <= 100,
        ensures
            r.ppb == p * 10_000_000,
            r.wf(),
    {
        SlashRatio { ppb: p * 10_000_000 }
    }

    /// The zero fraction.
    pub fn zero() -> (r: SlashRatio)
        ensures
            r.ppb == 0,
            r.wf(),
    {
        SlashRatio { ppb: 0 }
    }
}

/// `floor(amount * r)` for an unbounded amount.
pub open spec fn spec_mul_floor_int(amount: int, r: SlashRatio) -> int {
    (amount * r.ppb) / (RATIO_ONE as int)
}

/// `floor(amount * r)` as a mathematical integer.
pub open spec fn spec_mul_floor(amount: u64, r: SlashRatio) -> int {
    spec_mul_floor_int(amount as int, r)
}

/// A larger amount gives a larger (or equal) floored product (unbounded
/// form).
pub proof fn lemma_mul_floor_int_monotonic(a: int, b: int, r: SlashRatio)
    requires
        a <= b,
    ensures
        spec_mul_floor_int(a, r) <= spec_mul_floor_int(b, r),
{
    assert((a * r.ppb) / (RATIO_ONE as int) <= (b * r.ppb) / (RATIO_ONE as int))
        by (nonlinear_arith)
        requires
            a <= b,
    {
    }
}

/// The floored product never exceeds the amount when the fraction is at most
/// one, and is never negative.
pub proof fn lemma_mul_floor_bounds(amount: u64, r: SlashRatio)
    requires
        r.wf(),
    ensures
        0 <= spec_mul_floor(amount, r) <= amount,
{
    assert(0 <= (amount * r.ppb) / (RATIO_ONE as int) <= amount) by (nonlinear_arith)
        requires
            r.ppb <= RATIO_ONE,
    {
    }
}

/// A larger amount gives a larger (or equal) floored product.
pub proof fn lemma_mul_floor_monotonic(a: u64, b: u64, r: SlashRatio)
    requires
        a <= b,
    ensures
        spec_mul_floor(a, r) <= spec_mul_floor(b, r),
{
    assert((a * r.ppb) / (RATIO_ONE as int) <= (b * r.ppb) / (RATIO_ONE as int))
        by (nonlinear_arith)
        requires
            a <= b,
    {
    }
}

/// `floor(amount * r)`, truncating sub-unit remainders.
pub fn mul_floor(amount: u64, r: SlashRatio) -> (res: u64)
    requires
        r.wf(),
    ensures
        res == spec_mul_floor(amount, r),
        res <= amount,
{
    proof {
        lemma_mul_floor_bounds(amount, r);
    }
    ((amount as u128 * r.ppb as u128) / (RATIO_ONE as u128)) as u64
}

/// `ceil(num / den)` for positive denominators.
pub open spec fn spec_ceil_div(num: int, den: int) -> int {
    (num + den - 1) / den
}

/// The ceiling division rounds up: multiplied back it covers `num`.
pub proof fn lemma_ceil_div_covers(num: int, den: int)
    requires
        num >= 0,
        den > 0,
    ensures
        spec_ceil_div(num, den) * den >= num,
        spec_ceil_div(num, den) >= 0,
    {
    assert(((num + den - 1) / den) * den >= num && (num + den - 1) / den >= 0)
        by (nonlinear_arith)
        requires
            num >= 0,
            den > 0,
    {
    }
}

/// `ceil(num / den)`.
pub fn ceil_div(num: u128, den: u128) -> (res: u128)
    requires
        den > 0,
    ensures
        res == spec_ceil_div(num as int, den as int),
{
    if num == 0 {
        proof {
            assert((den as int - 1) / (den as int) == 0) by (nonlinear_arith)
                requires
                    den > 0,
            {
            }
        }
        0
    } else {
        proof {
            assert((num as int - 1) / (den as int) + 1 == (num + den - 1) / (den as int)
                && 0 <= (num as int - 1) / (den as int) < num) by (nonlinear_arith)
                requires
                    den > 0,
                    num > 0,
            {
            }
        }
        (num - 1) / den + 1
    }
}

} // verus!
