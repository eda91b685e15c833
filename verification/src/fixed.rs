//! Fixed-point units and the integer arithmetic the simulation is built on.

use vstd::prelude::*;

verus! {

/// One world unit, in the thousandths that lengths and velocities are held in.
pub const UNIT: i32 = 1000;

/// One second, in the microseconds that times are held in.
pub const SECOND: u32 = 1_000_000;

/// The value nearest to `x` that a position or velocity component can hold.
pub open spec fn clamp_i32(x: int) -> int {
    if x < i32::MIN {
        i32::MIN as int
    } else if x > i32::MAX {
        i32::MAX as int
    } else {
        x
    }
}

/// Quotient of `a` by a positive `b`, rounded toward zero.
pub open spec fn trunc_div(a: int, b: int) -> int {
    if a >= 0 {
        a / b
    } else {
        -((-a) / b)
    }
}

/// `r` is the integer square root of `n`: the largest integer whose square
/// does not exceed `n`.
pub open spec fn is_floor_sqrt(n: int, r: int) -> bool {
    0 <= r && r * r <= n && n < (r + 1) * (r + 1)
}

/// The integer square root of a non-negative `n`.
pub open spec fn floor_sqrt(n: int) -> int {
    choose|r: int| is_floor_sqrt(n, r)
}

/// At most one integer is the integer square root of `n`.
pub proof fn lemma_floor_sqrt_unique(n: int, r1: int, r2: int)
    requires
        is_floor_sqrt(n, r1),
        is_floor_sqrt(n, r2),
    ensures
        r1 == r2,
{
    if r1 < r2 {
        assert((r1 + 1) * (r1 + 1) <= r2 * r2) by (nonlinear_arith)
            requires
                0 <= r1,
                r1 + 1 <= r2,
        ;
    } else if r2 < r1 {
        assert((r2 + 1) * (r2 + 1) <= r1 * r1) by (nonlinear_arith)
            requires
                0 <= r2,
                r2 + 1 <= r1,
        ;
    }
}

/// An integer that passes the square-root test is the value of `floor_sqrt`.
pub proof fn lemma_floor_sqrt_is(n: int, r: int)
    requires
        is_floor_sqrt(n, r),
    ensures
        floor_sqrt(n) == r,
{
    lemma_floor_sqrt_unique(n, floor_sqrt(n), r);
}

/// Every non-negative integer has an integer square root, and `floor_sqrt`
/// is it.
pub proof fn lemma_floor_sqrt_exists(n: int)
    requires
        n >= 0,
    ensures
        is_floor_sqrt(n, floor_sqrt(n)),
    decreases n,
{
    if n == 0 {
        assert(is_floor_sqrt(0, 0));
    } else {
        lemma_floor_sqrt_exists(n - 1);
        let r = floor_sqrt(n - 1);
        if n < (r + 1) * (r + 1) {
            assert(is_floor_sqrt(n, r));
        } else {
            assert((r + 1) * (r + 1) < (r + 2) * (r + 2)) by (nonlinear_arith)
                requires
                    0 <= r,
            ;
            assert(is_floor_sqrt(n, r + 1));
        }
    }
}

/// A quotient rounded toward zero, times the divisor, falls short of the
/// dividend in magnitude by less than the divisor.
pub proof fn lemma_trunc_div_bounds(a: int, b: int)
    requires
        b > 0,
    ensures
        a >= 0 ==> a - b < trunc_div(a, b) * b <= a,
        a < 0 ==> a <= trunc_div(a, b) * b < a + b,
{
    let n = if a >= 0 {
        a
    } else {
        -a
    };
    vstd::arithmetic::div_mod::lemma_fundamental_div_mod(n, b);
    vstd::arithmetic::div_mod::lemma_mod_bound(n, b);
    assert(b * (n / b) == (n / b) * b) by (nonlinear_arith);
    assert((-(n / b)) * b == -((n / b) * b)) by (nonlinear_arith);
}

/// Narrows a wide intermediate result to a component, saturating at the ends
/// of the component range.
pub fn saturate(x: i128) -> (r: i32)
    ensures
        r == clamp_i32(x as int),
{
    if x < i32::MIN as i128 {
        i32::MIN
    } else if x > i32::MAX as i128 {
        i32::MAX
    } else {
        x as i32
    }
}

/// Divides `a` by a positive `b`, rounding toward zero.
pub fn div_toward_zero(a: i128, b: i128) -> (q: i128)
    requires
        b > 0,
    ensures
        q == trunc_div(a as int, b as int),
{
    a / b
}

/// Computes the integer square root by bisection.
pub fn isqrt(n: u128) -> (r: u64)
    ensures
        is_floor_sqrt(n as int, r as int),
        r == floor_sqrt(n as int),
{
    let mut lo: u128 = 0;
    let mut hi: u128 = 0x1_0000_0000_0000_0000;
    assert(n < hi * hi) by (nonlinear_arith)
        requires
            hi == 0x1_0000_0000_0000_0000,
            n <= u128::MAX,
    ;
    while hi - lo > 1
        invariant
            lo < hi <= 0x1_0000_0000_0000_0000,
            lo * lo <= n,
            n < hi * hi,
        decreases hi - lo,
    {
        let mid: u128 = lo + (hi - lo) / 2;
        assert(mid * mid <= u128::MAX) by (nonlinear_arith)
            requires
                0 <= mid <= 0xFFFF_FFFF_FFFF_FFFF,
        ;
        if mid * mid <= n {
            lo = mid;
        } else {
            hi = mid;
        }
    }
    proof {
        assert(hi == lo + 1);
        lemma_floor_sqrt_is(n as int, lo as int);
    }
    lo as u64
}

} // verus!
