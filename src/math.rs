//! Fixed-point fractions for easing a presentation from one state to the next.
use vstd::prelude::*;

verus! {

/// A fixed-point number: `SCALAR_ONE` stands for one.
pub type Scalar = i64;

pub const SCALAR_ONE: i64 = 1000;

/// Bound on the magnitude of the numbers that `mix_scalar` blends.
pub const SCALAR_LIMIT: i64 = 1_000_000_000_000;

pub open spec fn clamp_spec(s: int) -> int {
    if s < 0 {
        0
    } else if s > SCALAR_ONE {
        SCALAR_ONE as int
    } else {
        s
    }
}

/// Limits `s` to the range from zero to one.
pub fn clamp(s: Scalar) -> (r: Scalar)
    ensures
        r == clamp_spec(s as int),
{
    if s < 0 {
        0
    } else if s > SCALAR_ONE {
        SCALAR_ONE
    } else {
        s
    }
}

/// The point `percent` of the way from `s1` to `s2`, rounded toward `s1`.
pub fn mix_scalar(s1: Scalar, s2: Scalar, percent: Scalar) -> (r: Scalar)
    requires
        -SCALAR_LIMIT <= s1 <= SCALAR_LIMIT,
        -SCALAR_LIMIT <= s2 <= SCALAR_LIMIT,
        0 <= percent <= SCALAR_ONE,
    ensures
        s1 <= s2 ==> r == s1 + (percent * (s2 - s1)) / (SCALAR_ONE as int),
        s2 < s1 ==> r == s1 - (percent * (s1 - s2)) / (SCALAR_ONE as int),
{
    if s1 <= s2 {
        let d = s2 - s1;
        assert(percent * d <= SCALAR_ONE * d) by (nonlinear_arith)
            requires 0 <= percent <= SCALAR_ONE, 0 <= d;
        assert(0 <= percent * d) by (nonlinear_arith)
            requires 0 <= percent, 0 <= d;
        let p = percent * d;
        assert(p / SCALAR_ONE <= d) by (nonlinear_arith)
            requires 0 <= p <= SCALAR_ONE * d;
        s1 + p / SCALAR_ONE
    } else {
        let d = s1 - s2;
        assert(percent * d <= SCALAR_ONE * d) by (nonlinear_arith)
            requires 0 <= percent <= SCALAR_ONE, 0 <= d;
        assert(0 <= percent * d) by (nonlinear_arith)
            requires 0 <= percent, 0 <= d;
        let p = percent * d;
        assert(p / SCALAR_ONE <= d) by (nonlinear_arith)
            requires 0 <= p <= SCALAR_ONE * d;
        s1 - p / SCALAR_ONE
    }
}

/// Quadratic ease-out of `s`, taken from zero to one first: `s * (2 - s)`.
pub fn quadratic_out(s: Scalar) -> (r: Scalar)
    ensures
        r == (clamp_spec(s as int) * (2 * SCALAR_ONE - clamp_spec(s as int))) / (SCALAR_ONE as int),
{
    let c = clamp(s);
    assert(0 <= c * (2 * SCALAR_ONE - c) <= 2 * SCALAR_ONE * SCALAR_ONE) by (nonlinear_arith)
        requires 0 <= c <= SCALAR_ONE;
    (c * (2 * SCALAR_ONE - c)) / SCALAR_ONE
}

} // verus!
