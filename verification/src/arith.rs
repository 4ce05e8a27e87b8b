//! Saturating fixed-width arithmetic. Fitness sums and roulette bounds are
//! clamped at the top of their integer range instead of wrapping, and the
//! contracts state the clamped value exactly.

use vstd::prelude::*;

verus! {

/// `x` clamped into the range of `u64`.
pub open spec fn clamp_u64(x: int) -> int {
    if x > u64::MAX {
        u64::MAX as int
    } else {
        x
    }
}

/// `x` clamped into the range of `u128`.
pub open spec fn clamp_u128(x: int) -> int {
    if x > u128::MAX {
        u128::MAX as int
    } else {
        x
    }
}

/// Product of two `u64` values, clamped at `u64::MAX`.
pub fn sat_mul_u64(a: u64, b: u64) -> (r: u64)
    ensures
        r as int == clamp_u64(a as int * b as int),
{
    proof {
        assert((a as int) * (b as int) <= (u64::MAX as int) * (u64::MAX as int))
            by (nonlinear_arith)
            requires
                0 <= a as int <= u64::MAX as int,
                0 <= b as int <= u64::MAX as int,
        ;
    }
    let wide: u128 = (a as u128) * (b as u128);
    if wide > u64::MAX as u128 {
        u64::MAX
    } else {
        wide as u64
    }
}

/// Sum of two `u64` values, clamped at `u64::MAX`.
pub fn sat_add_u64(a: u64, b: u64) -> (r: u64)
    ensures
        r as int == clamp_u64(a as int + b as int),
{
    let wide: u128 = (a as u128) + (b as u128);
    if wide > u64::MAX as u128 {
        u64::MAX
    } else {
        wide as u64
    }
}

/// Sum of two `u128` values, clamped at `u128::MAX`.
pub fn sat_add_u128(a: u128, b: u128) -> (r: u128)
    ensures
        r as int == clamp_u128(a as int + b as int),
{
    if a > u128::MAX - b {
        u128::MAX
    } else {
        a + b
    }
}

/// The square of a `u64` value, computed exactly in `u128`.
pub fn square_u64(f: u64) -> (r: u128)
    ensures
        r as int == f as int * f as int,
{
    proof {
        assert((f as int) * (f as int) <= (u64::MAX as int) * (u64::MAX as int))
            by (nonlinear_arith)
            requires
                0 <= f as int <= u64::MAX as int,
        ;
    }
    (f as u128) * (f as u128)
}

/// Squaring preserves the order of non-negative values.
pub proof fn lemma_square_le(x: int, y: int)
    requires
        0 <= x <= y,
    ensures
        x * x <= y * y,
{
    assert(x * x <= y * y) by (nonlinear_arith)
        requires
            0 <= x <= y,
    ;
}

/// Clamping the sum of a clamped value and another term equals clamping
/// the unclamped sum: saturation can be applied stepwise.
pub proof fn lemma_clamp_u64_add(x: int, y: int)
    requires
        x >= 0,
        0 <= y <= u64::MAX,
    ensures
        clamp_u64(clamp_u64(x) + y) == clamp_u64(x + y),
{
}

pub proof fn lemma_clamp_u128_add(x: int, y: int)
    requires
        x >= 0,
        0 <= y <= u128::MAX,
    ensures
        clamp_u128(clamp_u128(x) + y) == clamp_u128(x + y),
{
}

} // verus!
