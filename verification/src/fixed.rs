//! Fixed-point scalars: the global scale, truncating division, and an
//! integer square root, each tied to an exact spec-level definition.

use vstd::prelude::*;

verus! {

/// Fixed-point one: a coordinate of `SCALE` units stands for 1.0.
pub const SCALE: i64 = 1000;

/// The isosurface level: influence 0.5 in fixed-point.
pub const THRESHOLD: i64 = 500;

/// Convergence tolerance of the surface projector: 0.01 in fixed-point.
pub const TOLERANCE: i64 = 10;

/// Step divisor of the damped gradient descent in the surface projector.
pub const PROJECT_DIVISOR: i64 = 5;

/// Ray-marching step: 0.05 in fixed-point.
pub const MARCH_STEP: i64 = 50;

/// Largest admitted number of sources in one composite field.
pub const MAX_SOURCES: usize = 100000;

/// Largest admitted magnitude of a source coordinate (1000.0 in world units).
pub const MAX_COORD: i64 = 1000000;

/// Largest admitted magnitude of a field query point coordinate.
pub const QUERY_RANGE: i64 = 1000000000;

/// Division that truncates toward zero, as the executable code divides.
pub open spec fn sdiv(x: int, d: int) -> int {
    if x >= 0 {
        x / d
    } else {
        -((-x) / d)
    }
}

/// Truncating division on machine integers; the result is `sdiv` exactly.
pub fn div_trunc(x: i64, d: i64) -> (r: i64)
    requires
        d > 0,
        x > i64::MIN,
    ensures
        r == sdiv(x as int, d as int),
        x >= 0 ==> 0 <= r <= x,
        x < 0 ==> x <= r <= 0,
{
    if x >= 0 {
        proof {
            vstd::arithmetic::div_mod::lemma_div_pos_is_pos(x as int, d as int);
            vstd::arithmetic::div_mod::lemma_div_nonincreasing(x as int, d as int);
        }
        ((x as u64) / (d as u64)) as i64
    } else {
        proof {
            vstd::arithmetic::div_mod::lemma_div_pos_is_pos(-x as int, d as int);
            vstd::arithmetic::div_mod::lemma_div_nonincreasing(-x as int, d as int);
        }
        let m = (-x) as u64;
        -((m / (d as u64)) as i64)
    }
}

/// `sdiv` is monotone in the numerator over nonnegative values.
pub proof fn lemma_sdiv_ordered(x: int, y: int, d: int)
    requires
        0 <= x <= y,
        d > 0,
    ensures
        0 <= sdiv(x, d) <= sdiv(y, d),
{
    vstd::arithmetic::div_mod::lemma_div_is_ordered(x, y, d);
    vstd::arithmetic::div_mod::lemma_div_pos_is_pos(x, d);
}

/// Dividing a bounded value keeps the bound: `|x| <= b * d` gives
/// `|sdiv(x, d)| <= b`.
pub proof fn lemma_sdiv_bound(x: int, b: int, d: int)
    requires
        -(b * d) <= x <= b * d,
        b >= 0,
        d > 0,
    ensures
        -b <= sdiv(x, d) <= b,
{
    if x >= 0 {
        lemma_sdiv_ordered(x, b * d, d);
        vstd::arithmetic::div_mod::lemma_div_by_multiple(b, d);
    } else {
        lemma_sdiv_ordered(-x, b * d, d);
        vstd::arithmetic::div_mod::lemma_div_by_multiple(b, d);
    }
}

/// Halving by `sdiv` loses at most one unit in either direction, and
/// never rounds away from zero.
pub proof fn lemma_sdiv2_near(x: int)
    ensures
        x - 1 <= 2 * sdiv(x, 2) <= x + 1,
        x >= 0 ==> 2 * sdiv(x, 2) <= x,
        x < 0 ==> x <= 2 * sdiv(x, 2),
{
    if x >= 0 {
        vstd::arithmetic::div_mod::lemma_remainder(x, 2);
    } else {
        vstd::arithmetic::div_mod::lemma_remainder(-x, 2);
    }
}

/// The floor of the square root of a natural number.
pub open spec fn sqrt_floor(n: nat) -> nat
    decreases n,
{
    if n == 0 {
        0
    } else {
        let p = sqrt_floor((n - 1) as nat);
        if (p + 1) * (p + 1) <= n {
            p + 1
        } else {
            p
        }
    }
}

/// `sqrt_floor(n)` is the unique `r` with `r * r <= n < (r + 1) * (r + 1)`.
pub proof fn lemma_sqrt_floor_bounds(n: nat)
    ensures
        sqrt_floor(n) * sqrt_floor(n) <= n,
        n < (sqrt_floor(n) + 1) * (sqrt_floor(n) + 1),
    decreases n,
{
    if n > 0 {
        lemma_sqrt_floor_bounds((n - 1) as nat);
        let p = sqrt_floor((n - 1) as nat);
        assert(p * p <= n - 1);
        assert(n - 1 < (p + 1) * (p + 1));
        if (p + 1) * (p + 1) <= n {
            assert(sqrt_floor(n) == p + 1);
            assert(n < (p + 2) * (p + 2)) by (nonlinear_arith)
                requires
                    p >= 0,
                    n <= (p + 1) * (p + 1),
            ;
        } else {
            assert(sqrt_floor(n) == p);
        }
        assert(sqrt_floor(n) * sqrt_floor(n) <= n);
        assert(n < (sqrt_floor(n) + 1) * (sqrt_floor(n) + 1));
    } else {
        assert(n == 0);
        assert(sqrt_floor(n) == 0);
        assert(sqrt_floor(n) * sqrt_floor(n) <= n);
        assert(n < (sqrt_floor(n) + 1) * (sqrt_floor(n) + 1)) by (nonlinear_arith)
            requires
                n == 0,
                sqrt_floor(n) == 0,
        ;
    }
}

/// Any `r` within the square-root bracket equals `sqrt_floor(n)`.
pub proof fn lemma_sqrt_floor_unique(n: nat, r: nat)
    requires
        r * r <= n,
        n < (r + 1) * (r + 1),
    ensures
        r == sqrt_floor(n),
{
    let s = sqrt_floor(n);
    lemma_sqrt_floor_bounds(n);
    if r < s {
        assert(s * s <= n < (r + 1) * (r + 1) && r + 1 <= s && false) by (nonlinear_arith)
            requires
                r < s,
                s * s <= n,
                n < (r + 1) * (r + 1),
        ;
    }
    if s < r {
        assert(false) by (nonlinear_arith)
            requires
                s < r,
                r * r <= n,
                n < (s + 1) * (s + 1),
        ;
    }
}

/// Integer square root by bisection: returns the floor of the square root.
pub fn isqrt(n: u64) -> (r: u64)
    ensures
        r == sqrt_floor(n as nat),
        r * r <= n,
{
    let mut lo: u64 = 0;
    let mut hi: u64 = 4294967296;
    proof {
        assert((4294967296int) * 4294967296 > u64::MAX);
    }
    while lo + 1 < hi
        invariant
            lo < hi <= 4294967296,
            lo * lo <= n,
            (n as int) < (hi as int) * (hi as int),
        decreases hi - lo,
    {
        let mid = lo + (hi - lo) / 2;
        proof {
            assert((mid as int) * (mid as int) <= 4294967295int * 4294967295) by (nonlinear_arith)
                requires
                    0 <= (mid as int) <= 4294967295int,
            ;
        }
        if mid * mid <= n {
            lo = mid;
        } else {
            hi = mid;
        }
    }
    proof {
        lemma_sqrt_floor_unique(n as nat, lo as nat);
    }
    lo
}

} // verus!
