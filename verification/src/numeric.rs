use vstd::prelude::*;

verus! {

/// The quotient `n / d` rounded to the nearest whole number, a half away
/// from zero; for `d > 0`.
pub open spec fn nearest(n: int, d: int) -> int {
    if n >= 0 {
        (2 * n + d) / (2 * d)
    } else {
        -((2 * (-n) + d) / (2 * d))
    }
}

/// Whether `r` is the whole part of the square root of `v`.
pub open spec fn is_sqrt_floor(r: int, v: int) -> bool {
    0 <= r && r * r <= v < (r + 1) * (r + 1)
}

/// The whole part of the square root of `v`; for `v >= 0`.
pub open spec fn sqrt_floor(v: int) -> int {
    choose|r: int| is_sqrt_floor(r, v)
}

/// A number has one whole square root only.
pub proof fn lemma_sqrt_floor_unique(r1: int, r2: int, v: int)
    requires
        is_sqrt_floor(r1, v),
        is_sqrt_floor(r2, v),
    ensures
        r1 == r2,
{
    if r1 < r2 {
        assert((r1 + 1) * (r1 + 1) <= r2 * r2) by (nonlinear_arith)
            requires
                0 <= r1,
                r1 + 1 <= r2,
        ;
    } else if r2 < r1 {
        assert((r2 + 1) * (r2 + 1) <= r1 * r1) by (nonlinear_arith)
            requires
                0 <= r2,
                r2 + 1 <= r1,
        ;
    }
}

/// The magnitude of the rounded quotient is no greater than that of the
/// dividend.
pub proof fn lemma_nearest_bounds(n: int, d: int)
    requires
        d > 0,
    ensures
        n >= 0 ==> 0 <= nearest(n, d) <= n,
        n < 0 ==> n <= nearest(n, d) <= 0,
{
    let m = if n >= 0 {
        n
    } else {
        -n
    };
    assert(0 <= (2 * m + d) / (2 * d) <= m) by (nonlinear_arith)
        requires
            m >= 0,
            d > 0,
    ;
}

/// The rounded mean of `d` numbers between `lo` and `hi` lies between
/// `lo` and `hi`.
pub proof fn lemma_nearest_between(n: int, d: int, lo: int, hi: int)
    requires
        d > 0,
        lo <= 0 <= hi,
        d * lo <= n <= d * hi,
    ensures
        lo <= nearest(n, d) <= hi,
{
    if n >= 0 {
        assert(0 <= (2 * n + d) / (2 * d) <= hi) by (nonlinear_arith)
            requires
                d > 0,
                0 <= n <= d * hi,
        ;
    } else {
        let m = -n;
        let low = -lo;
        assert(d * lo == -(d * low)) by (nonlinear_arith)
            requires
                low == -lo,
        ;
        assert(0 <= (2 * m + d) / (2 * d) <= low) by (nonlinear_arith)
            requires
                d > 0,
                0 <= m <= d * low,
        ;
    }
}

/// The quotient `n / d` rounded to the nearest whole number, a half away
/// from zero.
pub fn div_round(n: i128, d: i128) -> (q: i128)
    requires
        d > 0,
        -0x1000_0000_0000_0000_0000_0000_0000 <= n <= 0x1000_0000_0000_0000_0000_0000_0000,
        d <= 0x1000_0000_0000_0000_0000_0000_0000,
    ensures
        q == nearest(n as int, d as int),
{
    proof {
        lemma_nearest_bounds(n as int, d as int);
    }
    if n >= 0 {
        let top: u128 = 2 * (n as u128) + d as u128;
        let bottom: u128 = 2 * (d as u128);
        (top / bottom) as i128
    } else {
        let m: u128 = (-n) as u128;
        let top: u128 = 2 * m + d as u128;
        let bottom: u128 = 2 * (d as u128);
        -((top / bottom) as i128)
    }
}

/// The whole part of the square root.
pub fn isqrt(v: u128) -> (r: u64)
    requires
        v < 0x1_0000_0000_0000_0000_0000_0000,
    ensures
        is_sqrt_floor(r as int, v as int),
        r == sqrt_floor(v as int),
{
    let mut lo: u128 = 0;
    let mut hi: u128 = 0x1_0000_0000_0000;
    assert(0x1_0000_0000_0000 * 0x1_0000_0000_0000 == 0x1_0000_0000_0000_0000_0000_0000int);
    while hi - lo > 1
        invariant
            lo < hi <= 0x1_0000_0000_0000,
            lo * lo <= v < hi * hi,
        decreases hi - lo,
    {
        let mid: u128 = lo + (hi - lo) / 2;
        assert(mid * mid < 0x1_0000_0000_0000_0000_0000_0000) by (nonlinear_arith)
            requires
                0 <= mid < 0x1_0000_0000_0000,
        ;
        if mid * mid <= v {
            lo = mid;
        } else {
            hi = mid;
        }
    }
    proof {
        lemma_sqrt_floor_unique(lo as int, sqrt_floor(v as int), v as int);
    }
    lo as u64
}

} // verus!
