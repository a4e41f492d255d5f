//! Fixed-point scalars and planar vectors.
//!
//! Lengths are counted in thousandths of a world unit, velocities in
//! thousandths of a world unit per second, and frame time in microseconds.
use vstd::prelude::*;

verus! {

/// Largest magnitude of any stored coordinate (position or velocity component).
pub const LIMIT: i64 = 100_000_000_000_000;

/// Microseconds in one second.
pub const MICROS_PER_SECOND: i128 = 1_000_000;

/// True when `c` is a representable coordinate.
pub open spec fn in_range(c: int) -> bool {
    -LIMIT <= c <= LIMIT
}

/// A planar vector of fixed-point components.
#[derive(Clone, Copy, Debug, PartialEq, Eq)]
pub struct Vec2 {
    pub x: i64,
    pub y: i64,
}

impl Vec2 {
    pub open spec fn wf(self) -> bool {
        in_range(self.x as int) && in_range(self.y as int)
    }

    pub fn new(x: i64, y: i64) -> (r: Vec2)
        ensures
            r.x == x,
            r.y == y,
    {
        Vec2 { x, y }
    }
}

/// Integer division rounding toward zero, for a positive divisor.
pub open spec fn tdiv(a: int, b: int) -> int {
    if a >= 0 {
        a / b
    } else {
        -((-a) / b)
    }
}

pub proof fn lemma_tdiv_odd(a: int, b: int)
    requires
        b > 0,
    ensures
        tdiv(-a, b) == -tdiv(a, b),
{
    if a == 0 {
        assert(0int / b == 0) by (nonlinear_arith) requires b > 0;
    }
}

/// The quotient keeps the sign of the dividend and never exceeds it in size.
pub proof fn lemma_tdiv_bounds(a: int, b: int)
    requires
        b > 0,
    ensures
        a >= 0 ==> 0 <= tdiv(a, b) <= a,
        a <= 0 ==> a <= tdiv(a, b) <= 0,
        a >= 0 ==> b * tdiv(a, b) <= a,
        a <= 0 ==> a <= b * tdiv(a, b),
{
    if a >= 0 {
        assert(0 <= a / b <= a && b * (a / b) <= a) by (nonlinear_arith) requires a >= 0, b > 0;
    } else {
        let na = -a;
        assert(0 <= na / b <= na && b * (na / b) <= na) by (nonlinear_arith) requires na >= 0, b > 0;
        let q = na / b;
        assert(b * (-q) == -(b * q)) by (nonlinear_arith);
    }
}

/// Division rounding toward zero of a value of magnitude at most 2^120.
pub fn div_toward_zero(a: i128, b: i128) -> (r: i128)
    requires
        b > 0,
        -0x1_0000_0000_0000_0000_0000_0000_0000_00 <= a <= 0x1_0000_0000_0000_0000_0000_0000_0000_00,
    ensures
        r == tdiv(a as int, b as int),
{
    proof { lemma_tdiv_bounds(a as int, b as int); }
    if a >= 0 {
        a / b
    } else {
        let na: i128 = -a;
        -(na / b)
    }
}

/// Integer division rounding away from zero, for a positive divisor: any
/// nonzero quotient, however small, moves at least one unit.
pub open spec fn adiv(a: int, b: int) -> int {
    if a >= 0 {
        (a + b - 1) / b
    } else {
        -((-a + b - 1) / b)
    }
}

pub proof fn lemma_adiv_bounds(a: int, b: int)
    requires
        b > 0,
    ensures
        a == 0 ==> adiv(a, b) == 0,
        a > 0 ==> 1 <= adiv(a, b) <= a,
        a < 0 ==> a <= adiv(a, b) <= -1,
        a >= 0 ==> b * adiv(a, b) >= a,
        a <= 0 ==> b * adiv(a, b) <= a,
{
    if a == 0 {
        assert((b - 1) / b == 0) by (nonlinear_arith) requires b > 0;
    } else if a > 0 {
        assert(1 <= (a + b - 1) / b <= a) by (nonlinear_arith) requires a >= 1, b >= 1;
        assert(b * ((a + b - 1) / b) >= a) by (nonlinear_arith) requires a >= 1, b >= 1;
    } else {
        let na = -a;
        assert(1 <= (na + b - 1) / b <= na) by (nonlinear_arith) requires na >= 1, b >= 1;
        assert(b * ((na + b - 1) / b) >= na) by (nonlinear_arith) requires na >= 1, b >= 1;
        let t = (na + b - 1) / b;
        assert(b * (-t) == -(b * t)) by (nonlinear_arith);
    }
}

pub proof fn lemma_adiv_odd(a: int, b: int)
    requires
        b > 0,
    ensures
        adiv(-a, b) == -adiv(a, b),
{
    lemma_adiv_bounds(a, b);
    lemma_adiv_bounds(-a, b);
}

/// Division rounding away from zero of a value of magnitude at most 2^120.
pub fn div_away_from_zero(a: i128, b: i128) -> (r: i128)
    requires
        0 < b <= 0x1_0000_0000_0000_0000_0000_0000_0000_00,
        -0x1_0000_0000_0000_0000_0000_0000_0000_00 <= a <= 0x1_0000_0000_0000_0000_0000_0000_0000_00,
    ensures
        r == adiv(a as int, b as int),
{
    proof { lemma_adiv_bounds(a as int, b as int); }
    if a >= 0 {
        (a + b - 1) / b
    } else {
        let na: i128 = -a;
        -((na + b - 1) / b)
    }
}

/// `r` is the square root of `n` rounded down.
pub open spec fn is_floor_sqrt(r: int, n: int) -> bool {
    0 <= r && r * r <= n && n < (r + 1) * (r + 1)
}

/// The square root of `n` rounded down.
pub open spec fn sqrt_floor(n: int) -> int {
    choose|r: int| is_floor_sqrt(r, n)
}

pub proof fn lemma_floor_sqrt_unique(r: int, s: int, n: int)
    requires
        is_floor_sqrt(r, n),
        is_floor_sqrt(s, n),
    ensures
        r == s,
{
    if r < s {
        assert((r + 1) * (r + 1) <= s * s) by (nonlinear_arith) requires 0 <= r, r + 1 <= s;
    } else if s < r {
        assert((s + 1) * (s + 1) <= r * r) by (nonlinear_arith) requires 0 <= s, s + 1 <= r;
    }
}

pub proof fn lemma_sqrt_floor_is(r: int, n: int)
    requires
        is_floor_sqrt(r, n),
    ensures
        sqrt_floor(n) == r,
{
    let s = sqrt_floor(n);
    assert(is_floor_sqrt(s, n));
    lemma_floor_sqrt_unique(r, s, n);
}

/// Every natural number has a square root rounded down.
pub proof fn lemma_sqrt_floor_exists(n: int)
    requires
        n >= 0,
    ensures
        is_floor_sqrt(sqrt_floor(n), n),
    decreases n,
{
    if n == 0 {
        assert(is_floor_sqrt(0, 0));
    } else {
        lemma_sqrt_floor_exists(n - 1);
        let r = sqrt_floor(n - 1);
        if (r + 1) * (r + 1) <= n {
            assert(n < (r + 2) * (r + 2)) by (nonlinear_arith)
                requires n - 1 < (r + 1) * (r + 1), r >= 0;
            assert(is_floor_sqrt(r + 1, n));
        } else {
            assert(is_floor_sqrt(r, n));
        }
    }
}

/// Square root rounded down, by bisection.
pub fn floor_sqrt(n: u64) -> (r: u64)
    ensures
        r as int == sqrt_floor(n as int),
        is_floor_sqrt(r as int, n as int),
{
    let mut lo: u64 = 0;
    let mut hi: u64 = 0x1_0000_0000;
    while hi - lo > 1
        invariant
            lo < hi <= 0x1_0000_0000,
            lo * lo <= n,
            n < hi * hi,
        decreases hi - lo,
    {
        let mid: u64 = lo + (hi - lo) / 2;
        assert((mid as int) * (mid as int) <= 0x1_0000_0000 * 0x1_0000_0000) by (nonlinear_arith)
            requires 0 <= mid <= 0x1_0000_0000;
        let sq: u128 = (mid as u128) * (mid as u128);
        if sq <= n as u128 {
            lo = mid;
        } else {
            hi = mid;
        }
    }
    proof {
        assert(hi == lo + 1);
        lemma_sqrt_floor_is(lo as int, n as int);
    }
    lo
}

} // verus!
