//! Fixed-point scalars and vectors: every quantity is an `i64` counting
//! sixty-five-thousand-five-hundred-and-thirty-sixths of a unit, kept within
//! `[-LIMIT, LIMIT]` by saturating each operation at that bound.
use vstd::prelude::*;

verus! {

/// The fixed-point representation of 1.0.
pub const ONE: i64 = 65536;

/// Largest magnitude of a stored fixed-point value.
pub const LIMIT: i64 = 1099511627776;

pub open spec fn in_range(v: int) -> bool {
    -LIMIT <= v <= LIMIT
}

/// Saturates a value to the representable range.
pub open spec fn clamp(v: int) -> int {
    if v > LIMIT {
        LIMIT as int
    } else if v < -LIMIT {
        -LIMIT
    } else {
        v
    }
}

/// Division that rounds toward zero, for a positive divisor.
pub open spec fn tdiv(a: int, b: int) -> int {
    if a >= 0 {
        a / b
    } else {
        -((-a) / b)
    }
}

pub open spec fn fx_add(a: int, b: int) -> int {
    clamp(a + b)
}

pub open spec fn fx_sub(a: int, b: int) -> int {
    clamp(a - b)
}

pub open spec fn fx_mul(a: int, b: int) -> int {
    clamp(tdiv(a * b, ONE as int))
}

/// Quotient of two fixed-point values, for a positive divisor.
pub open spec fn fx_div(a: int, b: int) -> int {
    clamp(tdiv(a * ONE, b))
}

/// The integer square root: the largest `r` with `r * r <= n`.
pub open spec fn is_floor_sqrt(n: int, r: int) -> bool {
    0 <= r && r * r <= n && n < (r + 1) * (r + 1)
}

pub open spec fn floor_sqrt(n: int) -> int {
    choose|r: int| is_floor_sqrt(n, r)
}

pub proof fn lemma_floor_sqrt_unique(n: int, r: int, s: int)
    requires
        is_floor_sqrt(n, r),
        is_floor_sqrt(n, s),
    ensures
        r == s,
{
    if r < s {
        assert((r + 1) * (r + 1) <= s * s) by (nonlinear_arith)
            requires
                0 <= r,
                r + 1 <= s,
        ;
    } else if s < r {
        assert((s + 1) * (s + 1) <= r * r) by (nonlinear_arith)
            requires
                0 <= s,
                s + 1 <= r,
        ;
    }
}

pub proof fn lemma_clamp_in_range(v: int)
    ensures
        in_range(clamp(v)),
        in_range(v) ==> clamp(v) == v,
{
}

pub fn clamp_wide(v: i128) -> (r: i64)
    ensures
        r == clamp(v as int),
        in_range(r as int),
{
    if v > LIMIT as i128 {
        LIMIT
    } else if v < -(LIMIT as i128) {
        -LIMIT
    } else {
        v as i64
    }
}

pub fn div_toward_zero(a: i128, b: i128) -> (r: i128)
    requires
        b > 0,
        -0x1000000000000000000000000 <= a <= 0x1000000000000000000000000,
    ensures
        r == tdiv(a as int, b as int),
        -0x1000000000000000000000000 <= r <= 0x1000000000000000000000000,
{
    if a >= 0 {
        assert(a / b <= a) by (nonlinear_arith)
            requires
                a >= 0,
                b > 0,
        ;
        a / b
    } else {
        let n = -a;
        assert(n / b <= n) by (nonlinear_arith)
            requires
                n >= 0,
                b > 0,
        ;
        -(n / b)
    }
}

pub fn add(a: i64, b: i64) -> (r: i64)
    requires
        in_range(a as int),
        in_range(b as int),
    ensures
        r == fx_add(a as int, b as int),
        in_range(r as int),
{
    clamp_wide(a as i128 + b as i128)
}

pub fn sub(a: i64, b: i64) -> (r: i64)
    requires
        in_range(a as int),
        in_range(b as int),
    ensures
        r == fx_sub(a as int, b as int),
        in_range(r as int),
{
    clamp_wide(a as i128 - b as i128)
}

pub fn mul(a: i64, b: i64) -> (r: i64)
    requires
        in_range(a as int),
        in_range(b as int),
    ensures
        r == fx_mul(a as int, b as int),
        in_range(r as int),
{
    assert(-0x10000000000000000000000 <= a * b <= 0x10000000000000000000000) by (nonlinear_arith)
        requires
            -LIMIT <= a <= LIMIT,
            -LIMIT <= b <= LIMIT,
    ;
    let p: i128 = a as i128 * b as i128;
    clamp_wide(div_toward_zero(p, ONE as i128))
}

pub fn div(a: i64, b: i64) -> (r: i64)
    requires
        in_range(a as int),
        in_range(b as int),
        b > 0,
    ensures
        r == fx_div(a as int, b as int),
        in_range(r as int),
{
    clamp_wide(div_toward_zero(a as i128 * ONE as i128, b as i128))
}

/// The square root of a non-negative fixed-point value (zero for a negative
/// one).
pub open spec fn fx_sqrt(v: int) -> int {
    if v <= 0 {
        0
    } else {
        floor_sqrt(v * ONE)
    }
}

pub fn sqrt(v: i64) -> (r: i64)
    requires
        in_range(v as int),
    ensures
        r == fx_sqrt(v as int),
        0 <= r <= LIMIT,
{
    if v <= 0 {
        return 0;
    }
    let root = isqrt((v as u128) * (ONE as u128));
    assert(root * root <= 0x100000000000000 ==> root <= 0x10000000) by (nonlinear_arith)
        requires
            root >= 0,
    ;
    root as i64
}

/// The integer square root of `n`, by bisection.
pub fn isqrt(n: u128) -> (r: u128)
    requires
        n < 0x1000000000000000000000,
    ensures
        is_floor_sqrt(n as int, r as int),
        r == floor_sqrt(n as int),
        r < 0x80000000000,
{
    let mut lo: u128 = 0;
    let mut hi: u128 = 0x80000000000;
    assert(n < hi * hi) by (nonlinear_arith)
        requires
            hi == 0x80000000000,
            n < 0x1000000000000000000000,
    ;
    while hi - lo > 1
        invariant
            lo < hi <= 0x80000000000,
            lo * lo <= n,
            n < hi * hi,
        decreases hi - lo,
    {
        let mid = lo + (hi - lo) / 2;
        assert(mid * mid <= 0x80000000000 * 0x80000000000) by (nonlinear_arith)
            requires
                mid <= 0x80000000000,
        ;
        if mid * mid <= n {
            lo = mid;
        } else {
            hi = mid;
        }
    }
    assert(hi == lo + 1);
    proof {
        assert(is_floor_sqrt(n as int, lo as int));
        let s = floor_sqrt(n as int);
        assert(is_floor_sqrt(n as int, s));
        lemma_floor_sqrt_unique(n as int, lo as int, s);
    }
    lo
}

} // verus!
