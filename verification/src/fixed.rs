//! Fixed-point scalars.
//!
//! A scalar is an `i64` holding a real value times `SCALE`. All rounding in
//! the crate goes through the two helpers here: division rounds toward zero
//! (`div_tz`), and square roots round down (`sqrt_floor`). Keeping one policy
//! everywhere makes every numeric contract in the crate an exact statement.

use vstd::prelude::*;

verus! {

/// Number of fixed-point units per real unit.
pub const SCALE: i64 = 65536;

/// Absolute value over the mathematical integers.
pub open spec fn iabs(x: int) -> int {
    if x >= 0 {
        x
    } else {
        -x
    }
}

/// `r` is the square root of `n`, rounded down.
pub open spec fn is_sqrt(n: int, r: int) -> bool {
    &&& 0 <= r
    &&& r * r <= n
    &&& n < (r + 1) * (r + 1)
}

/// The square root of `n`, rounded down.
pub open spec fn sqrt_floor(n: int) -> int {
    choose|r: int| #[trigger] is_sqrt(n, r)
}

/// Division rounding toward zero, for a positive divisor. This matches what
/// the executable helpers below compute; the spec-level `/` rounds down
/// instead, so negative results differ by one.
pub open spec fn div_tz(a: int, b: int) -> int {
    if a >= 0 {
        a / b
    } else {
        -((-a) / b)
    }
}

proof fn lemma_sqrt_exists(n: int)
    requires
        n >= 0,
    ensures
        exists|r: int| #[trigger] is_sqrt(n, r),
    decreases n,
{
    if n == 0 {
        assert(is_sqrt(0, 0));
    } else {
        lemma_sqrt_exists(n - 1);
        let p = choose|r: int| #[trigger] is_sqrt(n - 1, r);
        if (p + 1) * (p + 1) <= n {
            assert(is_sqrt(n, p + 1)) by (nonlinear_arith)
                requires
                    0 <= p,
                    (p + 1) * (p + 1) <= n,
                    n - 1 < (p + 1) * (p + 1),
            ;
        } else {
            assert(is_sqrt(n, p));
        }
    }
}

/// Square roots rounded down are unique, so `sqrt_floor` names the one
/// witness and any value satisfying `is_sqrt` equals it.
pub proof fn lemma_sqrt_unique(n: int, r: int)
    requires
        is_sqrt(n, r),
    ensures
        r == sqrt_floor(n),
{
    lemma_sqrt_exists(n);
    let s = sqrt_floor(n);
    assert(is_sqrt(n, s));
    assert(r == s) by (nonlinear_arith)
        requires
            0 <= r,
            0 <= s,
            r * r <= n,
            n < (r + 1) * (r + 1),
            s * s <= n,
            n < (s + 1) * (s + 1),
    ;
}

/// `sqrt_floor` of a nonnegative number satisfies its defining property.
pub proof fn lemma_sqrt_is_sqrt(n: int)
    requires
        n >= 0,
    ensures
        is_sqrt(n, sqrt_floor(n)),
{
    lemma_sqrt_exists(n);
}

/// The quotient toward zero is no larger in magnitude than the dividend.
pub proof fn lemma_div_tz_bound(a: int, b: int)
    requires
        b >= 1,
    ensures
        iabs(div_tz(a, b)) <= iabs(a),
        iabs(div_tz(a, b)) <= iabs(a) / b,
{
    if a >= 0 {
        assert(a / b <= a && 0 <= a / b) by (nonlinear_arith)
            requires
                a >= 0,
                b >= 1,
        ;
    } else {
        assert((-a) / b <= -a && 0 <= (-a) / b) by (nonlinear_arith)
            requires
                a < 0,
                b >= 1,
        ;
    }
}

/// Scaling a bound down by the divisor: `|div_tz(a, b)| <= bound / b`
/// whenever `|a| <= bound`.
pub proof fn lemma_div_tz_ordered(a: int, b: int, bound: int)
    requires
        b >= 1,
        iabs(a) <= bound,
    ensures
        iabs(div_tz(a, b)) <= bound / b,
{
    lemma_div_tz_bound(a, b);
    vstd::arithmetic::div_mod::lemma_div_is_ordered(iabs(a), bound, b);
}

/// A larger divisor cannot give a larger magnitude:
/// `|div_tz(a, b)| <= |a| / c` whenever `1 <= c <= b`.
pub proof fn lemma_div_tz_denom(a: int, b: int, c: int)
    requires
        1 <= c <= b,
    ensures
        iabs(div_tz(a, b)) <= iabs(a) / c,
{
    lemma_div_tz_bound(a, b);
    vstd::arithmetic::div_mod::lemma_div_is_ordered_by_denominator(iabs(a), c, b);
}

/// Scaling by a factor the divisor dominates: `|div_tz(x * y, m)| <= ybound`
/// whenever `|x| <= m` and `|y| <= ybound`.
pub proof fn lemma_div_tz_scale(x: int, y: int, m: int, ybound: int)
    requires
        1 <= m,
        iabs(x) <= m,
        iabs(y) <= ybound,
        0 <= ybound,
    ensures
        iabs(div_tz(x * y, m)) <= ybound,
{
    lemma_mul_bound(x, y, m, ybound);
    assert(m * ybound == ybound * m) by (nonlinear_arith);
    lemma_div_tz_bound(x * y, m);
    vstd::arithmetic::div_mod::lemma_div_is_ordered(iabs(x * y), ybound * m, m);
    vstd::arithmetic::div_mod::lemma_div_multiples_vanish(ybound, m);
}

/// A product of factors within `a` and `b` in magnitude is within `a * b`.
pub proof fn lemma_mul_bound(x: int, y: int, a: int, b: int) by (nonlinear_arith)
    requires
        -a <= x <= a,
        -b <= y <= b,
        0 <= a,
        0 <= b,
    ensures
        -(a * b) <= x * y <= a * b,
{
}

/// A square is never negative.
pub proof fn lemma_square_nonneg(x: int) by (nonlinear_arith)
    ensures
        x * x >= 0,
{
}

/// Integer square root, rounded down.
pub fn isqrt_u64(x: u64) -> (r: u64)
    ensures
        is_sqrt(x as int, r as int),
        r as int == sqrt_floor(x as int),
        r <= 4294967295,
{
    let mut lo: u64 = 0;
    let mut hi: u64 = 4294967296;
    while lo + 1 < hi
        invariant
            0 <= lo < hi <= 4294967296,
            lo as int * lo as int <= x as int,
            (x as int) < hi as int * hi as int,
        decreases hi - lo,
    {
        let mid = lo + (hi - lo) / 2;
        assert((mid as int) * (mid as int) < (4294967296 * 4294967296)) by (nonlinear_arith)
            requires
                mid < 4294967296,
        ;
        if mid * mid <= x {
            lo = mid;
        } else {
            hi = mid;
        }
    }
    proof {
        lemma_sqrt_unique(x as int, lo as int);
    }
    lo
}

/// `a * b / c`, rounded toward zero, computed through wider intermediates so
/// the product cannot overflow.
pub fn mul_div(a: i64, b: i64, c: i64) -> (r: i64)
    requires
        c > 0,
        -0x7fff_ffff_ffff_ffff <= div_tz(a as int * b as int, c as int)
            <= 0x7fff_ffff_ffff_ffff,
    ensures
        r as int == div_tz(a as int * b as int, c as int),
{
    proof {
        assert(-(0x8000_0000_0000_0000 * 0x8000_0000_0000_0000) <= (a as int) * (b as int)
            <= 0x8000_0000_0000_0000 * 0x8000_0000_0000_0000) by (nonlinear_arith);
    }
    let p: i128 = (a as i128) * (b as i128);
    if p >= 0 {
        let q: u128 = (p as u128) / (c as u128);
        assert(q == (p as int) / (c as int));
        q as i64
    } else {
        let q: u128 = ((-p) as u128) / (c as u128);
        assert(q == (-(p as int)) / (c as int));
        -(q as i64)
    }
}

/// Division of wide intermediates, rounded toward zero.
pub fn div_tz_i128(a: i128, b: i128) -> (r: i128)
    requires
        b > 0,
        a != i128::MIN,
    ensures
        r as int == div_tz(a as int, b as int),
{
    if a >= 0 {
        proof {
            lemma_div_tz_bound(a as int, b as int);
        }
        let q: u128 = (a as u128) / (b as u128);
        q as i128
    } else {
        proof {
            lemma_div_tz_bound(a as int, b as int);
        }
        let q: u128 = ((-a) as u128) / (b as u128);
        -(q as i128)
    }
}

} // verus!
