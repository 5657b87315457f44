//! Fixed-point scalars.
//!
//! A coordinate is an `i64` count of `1/SCALE` units: the value written
//! `Fx { raw }` stands for the rational number `raw / SCALE`. Addition and
//! subtraction are exact; multiplication and division round the exact
//! rational result toward zero, which [`tdiv`] captures, so every operation
//! has an exact integer specification.

use vstd::prelude::*;

verus! {

use vstd::arithmetic::div_mod::{
    lemma_fundamental_div_mod,
    lemma_fundamental_div_mod_converse,
    lemma_div_pos_is_pos,
    lemma_div_nonincreasing,
    lemma_div_is_ordered,
    lemma_div_by_multiple,
};

/// Number of raw units in 1.0: coordinates carry 16 fractional bits.
pub const SCALE: i64 = 65536;

/// A fixed-point scalar; the value represented is `raw / SCALE`.
#[derive(Clone, Copy, PartialEq, Eq, Structural, Debug)]
pub struct Fx {
    pub raw: i64,
}

/// Division rounding toward zero (the rounding of `/` on machine integers),
/// defined for a positive divisor.
pub open spec fn tdiv(n: int, d: int) -> int {
    if n >= 0 {
        n / d
    } else {
        -((-n) / d)
    }
}

/// Greatest multiple of `SCALE` at most `raw`: the floor of a fixed-point
/// value, as a raw count.
pub open spec fn floor_raw(raw: int) -> int {
    (raw / (SCALE as int)) * (SCALE as int)
}

/// Least multiple of `SCALE` at least `raw`: the ceiling of a fixed-point
/// value, as a raw count.
pub open spec fn ceil_raw(raw: int) -> int {
    -(((-raw) / (SCALE as int)) * (SCALE as int))
}

/// Floor division of machine integers (rounds toward negative infinity,
/// matching `/` on spec integers for a positive divisor).
pub fn floor_div_i64(n: i64, d: i64) -> (q: i64)
    requires
        0 < d,
    ensures
        q == n as int / d as int,
{
    if n >= 0 {
        let qu: u64 = (n as u64) / (d as u64);
        proof {
            lemma_div_pos_is_pos(n as int, d as int);
            lemma_div_nonincreasing(n as int, d as int);
        }
        qu as i64
    } else {
        // floor(n / d) == -((-n - 1) / d) - 1 when n < 0
        let m: u64 = (-(n + 1)) as u64;
        let q0: u64 = m / (d as u64);
        proof {
            lemma_div_pos_is_pos(m as int, d as int);
            lemma_div_nonincreasing(m as int, d as int);
            lemma_fundamental_div_mod(m as int, d as int);
            let r = m as int % d as int;
            assert(m as int == -(n as int) - 1);
            assert(q0 as int == m as int / d as int);
            assert(m as int == (d as int) * (q0 as int) + r);
            assert((-(q0 as int) - 1) * (d as int) == -((d as int) * (q0 as int)) - (d as int))
                by (nonlinear_arith);
            assert(n as int == (-(q0 as int) - 1) * (d as int) + ((d as int) - r - 1));
            lemma_fundamental_div_mod_converse(n as int, d as int, -(q0 as int) - 1, d - r - 1);
        }
        -(q0 as i64) - 1
    }
}

/// Truncating division of wide intermediates by a positive divisor.
pub fn tdiv_i128(n: i128, d: i128) -> (q: i128)
    requires
        0 < d,
        i128::MIN < n,
    ensures
        q == tdiv(n as int, d as int),
{
    if n >= 0 {
        let qu: u128 = (n as u128) / (d as u128);
        proof {
            lemma_div_pos_is_pos(n as int, d as int);
            lemma_div_nonincreasing(n as int, d as int);
        }
        qu as i128
    } else {
        let m: u128 = (-n) as u128;
        let qu: u128 = m / (d as u128);
        proof {
            lemma_div_pos_is_pos(m as int, d as int);
            lemma_div_nonincreasing(m as int, d as int);
        }
        -(qu as i128)
    }
}

/// Truncated division of an exact multiple is exact.
pub proof fn lemma_tdiv_exact(m: int, d: int)
    requires
        0 < d,
    ensures
        tdiv(m * d, d) == m,
{
    if m >= 0 {
        lemma_div_by_multiple(m, d);
    } else {
        assert(-(m * d) == (-m) * d) by (nonlinear_arith);
        lemma_div_by_multiple(-m, d);
    }
}

/// The magnitude of a truncated quotient is bounded by any `b` with
/// `|n| <= b * d`.
pub proof fn lemma_tdiv_bound(n: int, d: int, b: int)
    requires
        0 < d,
        0 <= b,
        -(b * d) <= n <= b * d,
    ensures
        -b <= tdiv(n, d) <= b,
{
    if n >= 0 {
        lemma_div_pos_is_pos(n, d);
        lemma_div_is_ordered(n, b * d, d);
        lemma_div_by_multiple(b, d);
    } else {
        lemma_div_pos_is_pos(-n, d);
        lemma_div_is_ordered(-n, b * d, d);
        lemma_div_by_multiple(b, d);
    }
}

/// Truncation never enlarges the magnitude of a quotient and keeps its sign.
pub proof fn lemma_tdiv_sign(n: int, d: int)
    requires
        0 < d,
    ensures
        n >= 0 ==> 0 <= tdiv(n, d) <= n,
        n <= 0 ==> n <= tdiv(n, d) <= 0,
{
    if n >= 0 {
        lemma_div_pos_is_pos(n, d);
        lemma_div_nonincreasing(n, d);
    } else {
        lemma_div_pos_is_pos(-n, d);
        lemma_div_nonincreasing(-n, d);
    }
}

impl Fx {
    /// Exact sum.
    pub fn add(self, other: Fx) -> (r: Fx)
        requires
            i64::MIN <= self.raw + other.raw <= i64::MAX,
        ensures
            r.raw == self.raw + other.raw,
    {
        Fx { raw: self.raw + other.raw }
    }

    /// Exact difference.
    pub fn sub(self, other: Fx) -> (r: Fx)
        requires
            i64::MIN <= self.raw - other.raw <= i64::MAX,
        ensures
            r.raw == self.raw - other.raw,
    {
        Fx { raw: self.raw - other.raw }
    }

    /// Product, rounded toward zero.
    pub fn mul(self, other: Fx) -> (r: Fx)
        requires
            i64::MIN <= tdiv(self.raw * other.raw, SCALE as int) <= i64::MAX,
        ensures
            r.raw == tdiv(self.raw * other.raw, SCALE as int),
    {
        let p: i128 = (self.raw as i128) * (other.raw as i128);
        let q: i128 = tdiv_i128(p, SCALE as i128);
        Fx { raw: q as i64 }
    }

    /// Quotient, rounded toward zero; the divisor must be nonzero.
    pub fn div(self, other: Fx) -> (r: Fx)
        requires
            other.raw != 0,
            -(i64::MAX as int) <= tdiv(self.raw * SCALE as int, abs_int(other.raw as int)) <= i64::MAX,
        ensures
            r.raw == fx_div_spec(self.raw as int, other.raw as int),
    {
        let n: i128 = (self.raw as i128) * (SCALE as i128);
        if other.raw > 0 {
            let q: i128 = tdiv_i128(n, other.raw as i128);
            Fx { raw: q as i64 }
        } else {
            let q: i128 = tdiv_i128(n, -(other.raw as i128));
            proof {
                lemma_tdiv_sign(n as int, -(other.raw as int));
            }
            Fx { raw: (-q) as i64 }
        }
    }

    /// Greatest whole-unit value at most `self`.
    pub fn floor(self) -> (r: Fx)
        ensures
            r.raw == floor_raw(self.raw as int),
            r.raw <= self.raw,
            self.raw < r.raw + SCALE,
    {
        let q: i64 = floor_div_i64(self.raw, SCALE);
        proof {
            lemma_fundamental_div_mod(self.raw as int, SCALE as int);
        }
        Fx { raw: q * SCALE }
    }

    /// Least whole-unit value at least `self`.
    pub fn ceil(self) -> (r: Fx)
        requires
            i64::MIN + SCALE < self.raw,
            self.raw + SCALE <= i64::MAX,
        ensures
            r.raw == ceil_raw(self.raw as int),
            self.raw <= r.raw,
            r.raw < self.raw + SCALE,
    {
        let q: i64 = floor_div_i64(-self.raw, SCALE);
        proof {
            lemma_fundamental_div_mod(-(self.raw as int), SCALE as int);
        }
        Fx { raw: -(q * SCALE) }
    }
}

/// What fixed-point division returns: the quotient of `n * SCALE` by `d`,
/// rounded toward zero, for either sign of the divisor.
pub open spec fn fx_div_spec(n: int, d: int) -> int {
    if d > 0 {
        tdiv(n * SCALE, d)
    } else {
        -tdiv(n * SCALE, -d)
    }
}

/// Magnitude of an integer.
pub open spec fn abs_int(n: int) -> int {
    if n >= 0 {
        n
    } else {
        -n
    }
}

/// `r` is the square root of `n`, rounded down.
pub open spec fn is_sqrt_floor(n: int, r: int) -> bool {
    &&& 0 <= r
    &&& r * r <= n
    &&& n < (r + 1) * (r + 1)
}

/// The square root of `n`, rounded down.
pub open spec fn sqrt_floor(n: int) -> int {
    choose|r: int| is_sqrt_floor(n, r)
}

/// A number has at most one rounded-down square root.
pub proof fn lemma_sqrt_floor_unique(n: int, r1: int, r2: int)
    by (nonlinear_arith)
    requires
        is_sqrt_floor(n, r1),
        is_sqrt_floor(n, r2),
    ensures
        r1 == r2,
{
}

/// Square root of a wide unsigned integer, rounded down.
pub fn isqrt_u128(n: u128) -> (r: u128)
    ensures
        is_sqrt_floor(n as int, r as int),
        r as int == sqrt_floor(n as int),
{
    if n == 0 {
        proof {
            assert(is_sqrt_floor(0, 0)) by (nonlinear_arith);
            assert(exists|r: int| is_sqrt_floor(n as int, r));
            lemma_sqrt_floor_unique(n as int, 0, sqrt_floor(n as int));
        }
        return 0;
    }
    let mut lo: u128 = 0;
    // 2^64 squared exceeds every u128, so it is a strict upper bound.
    let mut hi: u128 = 18446744073709551616u128;
    proof {
        assert((18446744073709551616u128 as int) * (18446744073709551616u128 as int)
            > u128::MAX as int) by (nonlinear_arith);
    }
    while lo + 1 < hi
        invariant
            0 <= lo < hi <= 18446744073709551616u128,
            (lo as int) * (lo as int) <= n as int,
            (n as int) < (hi as int) * (hi as int),
        decreases hi - lo,
    {
        let mid: u128 = lo + (hi - lo) / 2;
        proof {
            assert((mid as int) * (mid as int) <= (18446744073709551615u128 as int)
                * (18446744073709551615u128 as int)) by (nonlinear_arith)
                requires 0 <= mid as int <= 18446744073709551615u128 as int;
            assert((18446744073709551615u128 as int) * (18446744073709551615u128 as int)
                <= u128::MAX as int) by (nonlinear_arith);
        }
        let sq: u128 = mid * mid;
        if sq <= n {
            lo = mid;
        } else {
            hi = mid;
        }
    }
    proof {
        assert(is_sqrt_floor(n as int, lo as int));
        assert(exists|r: int| is_sqrt_floor(n as int, r));
        lemma_sqrt_floor_unique(n as int, lo as int, sqrt_floor(n as int));
    }
    lo
}

} // verus!
