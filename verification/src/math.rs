//! Overflow-checked balance arithmetic and the AMM pricing primitives:
//! basis-point fee application, floor/ceiling division, and an exact
//! integer square root used for first-deposit share minting.
//!
//! Any overflow surfaces as [`Error::MathOverflow`]; nothing here wraps or
//! saturates silently.

use vstd::prelude::*;
use crate::Error;

verus! {

/// Fees are quoted in basis points, 1/10000 of a unit; a pool fee must be
/// strictly below this denominator.
pub const BASIS_POINT_DENOM: u128 = 10000;

/// `a + b`, or `MathOverflow` exactly when the mathematical sum does not fit.
pub fn add_checked(a: u128, b: u128) -> (r: Result<u128, Error>)
    ensures
        a + b <= u128::MAX ==> r == Ok::<u128, Error>((a + b) as u128),
        a + b > u128::MAX ==> r == Err::<u128, Error>(Error::MathOverflow),
{
    if a <= u128::MAX - b {
        Ok(a + b)
    } else {
        Err(Error::MathOverflow)
    }
}

/// `a * b`, or `MathOverflow` exactly when the mathematical product does not
/// fit.
pub fn mul_checked(a: u128, b: u128) -> (r: Result<u128, Error>)
    ensures
        a * b <= u128::MAX ==> r == Ok::<u128, Error>((a * b) as u128),
        a * b > u128::MAX ==> r == Err::<u128, Error>(Error::MathOverflow),
{
    if b == 0 {
        proof {
            assert(a * b == 0) by (nonlinear_arith)
                requires b == 0u128;
        }
        Ok(0)
    } else if a <= u128::MAX / b {
        proof {
            lemma_mul_div_bound(a, b, u128::MAX as int);
        }
        Ok(a * b)
    } else {
        proof {
            lemma_mul_div_bound_exceed(a, b, u128::MAX as int);
        }
        Err(Error::MathOverflow)
    }
}

/// If `a <= m / b` (integer division, `b > 0`) then `a * b <= m`.
proof fn lemma_mul_div_bound(a: u128, b: u128, m: int)
    requires
        b > 0,
        m >= 0,
        a <= m / (b as int),
    ensures
        a * b <= m,
{
    assert(a * b <= (m / (b as int)) * b) by (nonlinear_arith)
        requires b > 0 && a <= m / (b as int);
    assert((m / (b as int)) * b <= m) by (nonlinear_arith)
        requires b > 0 && m >= 0;
}

/// If `a > m / b` (integer division, `b > 0`) then `a * b > m`.
proof fn lemma_mul_div_bound_exceed(a: u128, b: u128, m: int)
    requires
        b > 0,
        m >= 0,
        a > m / (b as int),
    ensures
        a * b > m,
{
    assert(a >= m / (b as int) + 1);
    assert((m / (b as int) + 1) * b > m) by (nonlinear_arith)
        requires b > 0 && m >= 0;
    assert(a * b >= (m / (b as int) + 1) * b) by (nonlinear_arith)
        requires b > 0 && a >= m / (b as int) + 1;
}

/// Ceiling division: the least integer `q` with `q * d >= a`.
pub fn div_ceil(a: u128, d: u128) -> (r: u128)
    requires
        d > 0,
    ensures
        r == spec_div_ceil(a as int, d as int),
        r * d >= a,
        a > 0 ==> r >= 1,
        r <= a,
{
    let q: u128 = a / d;
    proof {
        vstd::arithmetic::div_mod::lemma_fundamental_div_mod(a as int, d as int);
        assert(d as int * (a as int / d as int) + a as int % d as int == a);
        assert(q * d == d as int * (a as int / d as int)) by (nonlinear_arith)
            requires q == a as int / d as int;
        assert(a / d <= a) by (nonlinear_arith)
            requires d > 0;
    }
    if a % d == 0 {
        proof {
            assert(q * d == a);
            if a > 0 && q == 0 {
                assert(q * d == 0) by (nonlinear_arith)
                    requires q == 0u128;
            }
        }
        q
    } else {
        proof {
            assert(q * d < a);
            assert(q <= q * d) by (nonlinear_arith)
                requires d >= 1;
            assert((q + 1) * d == q * d + d) by (nonlinear_arith);
            assert((q + 1) * d >= a);
        }
        q + 1
    }
}

/// Mathematical ceiling of `a / d` for `d > 0`.
pub open spec fn spec_div_ceil(a: int, d: int) -> int {
    if a % d == 0 { a / d } else { a / d + 1 }
}

/// The ceiling really is an upper witness: `spec_div_ceil(a, d) * d >= a`.
pub proof fn lemma_div_ceil_bounds(a: int, d: int)
    requires
        a >= 0,
        d > 0,
    ensures
        spec_div_ceil(a, d) * d >= a,
        spec_div_ceil(a, d) >= a / d,
        a > 0 ==> spec_div_ceil(a, d) >= 1,
{
    vstd::arithmetic::div_mod::lemma_fundamental_div_mod(a, d);
    assert(d * (a / d) + a % d == a);
    assert((a / d) * d == d * (a / d)) by (nonlinear_arith);
    if a % d == 0 {
        assert(spec_div_ceil(a, d) * d >= a);
    } else {
        assert((a / d + 1) * d == (a / d) * d + d) by (nonlinear_arith);
        assert((a / d + 1) * d >= a);
    }
    if a > 0 {
        if a % d == 0 && a / d == 0 {
            assert(d * 0 == 0) by (nonlinear_arith);
        }
    }
}

/// Net amount after a basis-point fee: `amount * (10000 - fee_bp) / 10000`,
/// rounded down. Fails `MathOverflow` exactly when the scaled product does
/// not fit in the balance type.
pub fn apply_fee(amount: u128, fee_bp: u16) -> (r: Result<u128, Error>)
    requires
        fee_bp < 10000,
    ensures
        r == spec_apply_fee(amount as int, fee_bp as int),
        r is Ok ==> r->Ok_0 <= amount,
        fee_bp == 0 && amount * 10000 <= u128::MAX ==> r == Ok::<u128, Error>(amount),
{
    let keep: u128 = BASIS_POINT_DENOM - fee_bp as u128;
    let scaled = mul_checked(amount, keep)?;
    proof {
        assert(scaled / BASIS_POINT_DENOM <= amount) by (nonlinear_arith)
            requires
                scaled == amount * keep,
                0 < keep <= 10000,
                BASIS_POINT_DENOM == 10000,
        ;
        if fee_bp == 0 {
            assert(amount * 10000 / 10000 == amount) by (nonlinear_arith);
        }
    }
    Ok(scaled / BASIS_POINT_DENOM)
}

/// What `apply_fee` returns: the fee-reduced amount when the scaled product
/// fits, `MathOverflow` otherwise.
pub open spec fn spec_apply_fee(amount: int, fee_bp: int) -> Result<u128, Error> {
    if amount * (10000 - fee_bp) <= u128::MAX {
        Ok((amount * (10000 - fee_bp) / 10000) as u128)
    } else {
        Err(Error::MathOverflow)
    }
}

/// A positive fee on a positive amount strictly reduces it.
pub proof fn lemma_fee_strictly_reduces(amount: int, fee_bp: int)
    requires
        0 < fee_bp < 10000,
        amount > 0,
        amount * (10000 - fee_bp) <= u128::MAX,
    ensures
        spec_apply_fee(amount, fee_bp)->Ok_0 < amount,
{
    let keep = 10000 - fee_bp;
    assert(amount * keep <= amount * 10000 - amount) by (nonlinear_arith)
        requires amount > 0 && 0 < keep <= 10000 - 1;
    assert(amount * keep / 10000 < amount) by (nonlinear_arith)
        requires amount > 0 && amount * keep <= amount * 10000 - amount && amount * keep >= 0;
}

/// The integer square root of a non-negative value: the unique `r >= 0`
/// with `r * r <= x < (r + 1) * (r + 1)`.
pub open spec fn spec_isqrt(x: int) -> int {
    choose|r: int| 0 <= r && #[trigger] (r * r) <= x && (r + 1) * (r + 1) > x
}

/// The integer square root exists, so the chosen value satisfies its
/// characterization.
pub proof fn lemma_isqrt_char(x: int)
    requires
        x >= 0,
    ensures
        0 <= spec_isqrt(x),
        spec_isqrt(x) * spec_isqrt(x) <= x,
        (spec_isqrt(x) + 1) * (spec_isqrt(x) + 1) > x,
    decreases x,
{
    if x == 0 {
        assert(0 * 0 <= 0 && (0 + 1) * (0 + 1) > 0) by (nonlinear_arith);
        assert(exists|r: int| 0 <= r && #[trigger] (r * r) <= x && (r + 1) * (r + 1) > x);
    } else {
        lemma_isqrt_char(x - 1);
        let r = spec_isqrt(x - 1);
        if (r + 1) * (r + 1) == x {
            assert((r + 2) * (r + 2) > x) by (nonlinear_arith)
                requires r >= 0 && (r + 1) * (r + 1) == x;
            assert(0 <= r + 1 && (r + 1) * (r + 1) <= x && (r + 2) * (r + 2) > x);
            assert(exists|w: int| 0 <= w && #[trigger] (w * w) <= x && (w + 1) * (w + 1) > x);
        } else {
            assert(0 <= r && r * r <= x && (r + 1) * (r + 1) > x);
            assert(exists|w: int| 0 <= w && #[trigger] (w * w) <= x && (w + 1) * (w + 1) > x);
        }
    }
}

/// Any witness of the square-root characterization is `spec_isqrt(x)`.
pub proof fn lemma_isqrt_unique(x: int, r: int)
    requires
        0 <= r,
        r * r <= x,
        (r + 1) * (r + 1) > x,
    ensures
        spec_isqrt(x) == r,
{
    let c = spec_isqrt(x);
    assert(0 <= c && c * c <= x && (c + 1) * (c + 1) > x);
    if c < r {
        assert((c + 1) * (c + 1) <= r * r) by (nonlinear_arith)
            requires 0 <= c && c + 1 <= r;
        assert(false);
    }
    if r < c {
        assert((r + 1) * (r + 1) <= c * c) by (nonlinear_arith)
            requires 0 <= r && r + 1 <= c;
        assert(false);
    }
}

/// Exact integer square root: the unique `r` with `r * r <= x < (r+1)*(r+1)`.
pub fn isqrt(x: u128) -> (r: u128)
    ensures
        r * r <= x,
        (r + 1) * (r + 1) > x,
        x > 0 ==> r >= 1,
        r == spec_isqrt(x as int),
{
    let mut lo: u128 = 0;
    let mut hi: u128 = 1u128 << 64;
    proof {
        assert((1u128 << 64) == 0x10000000000000000) by (bit_vector);
        assert(0x10000000000000000int * 0x10000000000000000int > u128::MAX);
    }
    while lo + 1 < hi
        invariant
            lo < hi <= 0x10000000000000000,
            lo * lo <= x,
            (hi as int) * (hi as int) > x,
        decreases hi - lo,
    {
        let mid: u128 = lo + (hi - lo) / 2;
        proof {
            assert(lo < mid < hi);
            assert(mid * mid <= u128::MAX) by (nonlinear_arith)
                requires mid < 0x10000000000000000;
        }
        if mid * mid <= x {
            lo = mid;
        } else {
            hi = mid;
        }
    }
    proof {
        assert(hi == lo + 1);
        if x > 0 && lo == 0 {
            assert((1int) * (1int) > x);
        }
        lemma_isqrt_unique(x as int, lo as int);
    }
    lo
}

} // verus!
