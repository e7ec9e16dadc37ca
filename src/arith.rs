use vstd::prelude::*;

verus! {

/// Sum of the squares of the entries of `v`.
pub open spec fn sum_sq(v: Seq<int>) -> int
    decreases v.len(),
{
    if v.len() == 0 {
        0
    } else {
        sum_sq(v.drop_last()) + v.last() * v.last()
    }
}

/// Integer division rounding toward zero, for a positive divisor.
pub open spec fn tdiv(a: int, b: int) -> int {
    if a >= 0 {
        a / b
    } else {
        -((-a) / b)
    }
}

/// `r` is the integer square root of `n`: the largest `r` with `r * r <= n`.
pub open spec fn is_isqrt(n: int, r: int) -> bool {
    0 <= r && r * r <= n && n < (r + 1) * (r + 1)
}

/// `x` held within `[-lim, lim]`.
pub open spec fn clamp(x: int, lim: int) -> int {
    if x > lim {
        lim
    } else if x < -lim {
        -lim
    } else {
        x
    }
}

pub proof fn lemma_sum_sq_nonneg(v: Seq<int>)
    ensures
        sum_sq(v) >= 0,
    decreases v.len(),
{
    if v.len() > 0 {
        lemma_sum_sq_nonneg(v.drop_last());
        assert(v.last() * v.last() >= 0) by (nonlinear_arith);
    }
}

/// Integer square root by bisection.
pub fn isqrt(n: u64) -> (r: u64)
    ensures
        is_isqrt(n as int, r as int),
{
    let mut lo: u64 = 0;
    let mut hi: u64 = 4294967296;
    assert(n < 4294967296 * 4294967296) by (nonlinear_arith)
        requires n <= u64::MAX;
    while hi - lo > 1
        invariant
            lo < hi <= 4294967296,
            lo * lo <= n,
            n < hi * hi,
        decreases hi - lo,
    {
        let mid: u64 = lo + (hi - lo) / 2;
        assert(mid * mid <= 4294967296 * 4294967296) by (nonlinear_arith)
            requires mid < 4294967296;
        if (mid as u128) * (mid as u128) <= n as u128 {
            lo = mid;
        } else {
            hi = mid;
        }
    }
    lo
}

/// Integer square root of a 120-bit value, by bisection.
pub fn isqrt_wide(n: u128) -> (r: u128)
    requires
        n < 0x1000000000000000000000000000000,
    ensures
        is_isqrt(n as int, r as int),
        r < 0x1000000000000000,
{
    let mut lo: u128 = 0;
    let mut hi: u128 = 0x1000000000000000;
    assert(n < 0x1000000000000000 * 0x1000000000000000);
    while hi - lo > 1
        invariant
            lo < hi <= 0x1000000000000000,
            lo * lo <= n,
            n < hi * hi,
        decreases hi - lo,
    {
        let mid: u128 = lo + (hi - lo) / 2;
        assert(mid * mid < 0x1000000000000000 * 0x1000000000000000) by (nonlinear_arith)
            requires mid < 0x1000000000000000;
        if mid * mid <= n {
            lo = mid;
        } else {
            hi = mid;
        }
    }
    lo
}

/// Division rounding toward zero, for a positive divisor.
pub fn trunc_div(a: i128, b: i128) -> (r: i128)
    requires
        b > 0,
        a > i128::MIN,
    ensures
        r == tdiv(a as int, b as int),
{
    if a >= 0 {
        a / b
    } else {
        -((-a) / b)
    }
}

/// Saturates `x` to `[-lim, lim]`.
pub fn clamp_i128(x: i128, lim: i128) -> (r: i128)
    requires
        lim >= 0,
    ensures
        r == clamp(x as int, lim as int),
{
    if x > lim {
        lim
    } else if x < -lim {
        -lim
    } else {
        x
    }
}

} // verus!
