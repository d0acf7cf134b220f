//! Fixed-point scalars and the integer arithmetic the kernel is built on.
use vstd::prelude::*;

verus! {

/// The fixed-point representation of 1.0: lengths, velocities and
/// coefficients are stored in millionths.
pub const ONE: i64 = 1_000_000;

/// The floor of the square root of `n`.
pub open spec fn floor_sqrt(n: int) -> int
    decreases n,
{
    if n <= 0 {
        0
    } else {
        let r = floor_sqrt(n - 1);
        if (r + 1) * (r + 1) <= n {
            r + 1
        } else {
            r
        }
    }
}

proof fn lemma_floor_sqrt_brackets(n: int)
    requires
        n >= 0,
    ensures
        floor_sqrt(n) >= 0,
        floor_sqrt(n) * floor_sqrt(n) <= n,
        n < (floor_sqrt(n) + 1) * (floor_sqrt(n) + 1),
    decreases n,
{
    if n > 0 {
        lemma_floor_sqrt_brackets(n - 1);
        let r = floor_sqrt(n - 1);
        assert((r + 1) * (r + 1) == r * r + 2 * r + 1) by (nonlinear_arith);
        assert((r + 2) * (r + 2) == (r + 1) * (r + 1) + 2 * r + 3) by (nonlinear_arith);
    }
}

proof fn lemma_sqrt_unique(n: int, r: int, s: int)
    requires
        r >= 0,
        s >= 0,
        r * r <= n < (r + 1) * (r + 1),
        s * s <= n < (s + 1) * (s + 1),
    ensures
        r == s,
{
    if r < s {
        assert((r + 1) * (r + 1) <= s * s) by (nonlinear_arith)
            requires r + 1 <= s, r >= 0;
    } else if s < r {
        assert((s + 1) * (s + 1) <= r * r) by (nonlinear_arith)
            requires s + 1 <= r, s >= 0;
    }
}

/// `floor_sqrt` is characterised by bracketing `n` between consecutive squares.
pub proof fn lemma_floor_sqrt_is(n: int, r: int)
    requires
        n >= 0,
        r >= 0,
        r * r <= n < (r + 1) * (r + 1),
    ensures
        floor_sqrt(n) == r,
{
    lemma_floor_sqrt_brackets(n);
    lemma_sqrt_unique(n, r, floor_sqrt(n));
}

/// Largest value `isqrt` accepts: every sum of two squared coordinate
/// differences of the kernel lies below it.
pub const SQRT_INPUT_LIMIT: u128 = 0x1_0000_0000_0000_0000_0000;

/// Integer square root, rounded down, by bisection.
pub fn isqrt(n: u128) -> (r: u64)
    requires
        n < SQRT_INPUT_LIMIT,
    ensures
        r as int == floor_sqrt(n as int),
{
    // invariant: lo * lo <= n < hi * hi
    let mut lo: u64 = 0;
    let mut hi: u64 = 0x100_0000_0000;
    assert(0x100_0000_0000u64 as int * 0x100_0000_0000u64 as int == SQRT_INPUT_LIMIT as int) by (nonlinear_arith);
    while hi - lo > 1
        invariant
            lo < hi <= 0x100_0000_0000,
            lo as int * lo as int <= n as int,
            (n as int) < hi as int * hi as int,
        decreases hi - lo,
    {
        let mid: u64 = lo + (hi - lo) / 2;
        assert(mid as int * mid as int <= 0x100_0000_0000int * 0x100_0000_0000int) by (nonlinear_arith)
            requires mid <= 0x100_0000_0000;
        let sq: u128 = mid as u128 * mid as u128;
        if sq <= n {
            lo = mid;
        } else {
            hi = mid;
        }
    }
    proof {
        lemma_floor_sqrt_is(n as int, lo as int);
    }
    lo
}

} // verus!

verus! {

/// A two-dimensional fixed-point vector (a position, displacement or velocity).
#[derive(Clone, Copy, Debug, PartialEq, Eq, Structural)]
pub struct Vec2 {
    pub x: i64,
    pub y: i64,
}

impl Vec2 {
    pub fn new(x: i64, y: i64) -> (r: Vec2)
        ensures
            r.x == x,
            r.y == y,
    {
        Vec2 { x, y }
    }
}

/// Division rounded toward zero, for a positive divisor.
pub open spec fn trunc_div(n: int, d: int) -> int {
    if n >= 0 {
        n / d
    } else {
        -((-n) / d)
    }
}

pub open spec fn abs(a: int) -> int {
    if a >= 0 {
        a
    } else {
        -a
    }
}

/// `a` limited to the range of `i64`.
pub open spec fn saturate(a: int) -> int {
    if a > i64::MAX {
        i64::MAX as int
    } else if a < i64::MIN {
        i64::MIN as int
    } else {
        a
    }
}

pub fn div_toward_zero(n: i128, d: i128) -> (r: i128)
    requires
        d > 0,
        n > i128::MIN,
    ensures
        r == trunc_div(n as int, d as int),
{
    if n >= 0 {
        n / d
    } else {
        let m: i128 = -n;
        -(m / d)
    }
}

/// When `|n| <= bound * d`, the truncated quotient is at most `bound` in magnitude.
pub proof fn lemma_trunc_div_bound(n: int, d: int, bound: int)
    requires
        d > 0,
        bound >= 0,
        abs(n) <= bound * d,
    ensures
        abs(trunc_div(n, d)) <= bound,
{
    let m = abs(n);
    vstd::arithmetic::div_mod::lemma_fundamental_div_mod(m, d);
    assert(0 <= m % d);
    assert(m / d >= 0) by {
        vstd::arithmetic::div_mod::lemma_div_pos_is_pos(m, d);
    }
    let q = m / d;
    assert(d * q <= bound * d);
    assert(q <= bound) by (nonlinear_arith)
        requires d > 0, d * q <= bound * d;
}

/// `r * r <= n` bounds `r` by the floor of the square root.
pub proof fn lemma_below_floor_sqrt(n: int, r: int)
    requires
        n >= 0,
        r >= 0,
        r * r <= n,
    ensures
        r <= floor_sqrt(n),
{
    lemma_floor_sqrt_brackets(n);
    let s = floor_sqrt(n);
    if r > s {
        assert((s + 1) * (s + 1) <= r * r) by (nonlinear_arith)
            requires r >= s + 1, s >= 0;
    }
}

/// The floor of the square root is monotone.
pub proof fn lemma_floor_sqrt_monotone(a: int, b: int)
    requires
        0 <= a <= b,
    ensures
        floor_sqrt(a) <= floor_sqrt(b),
{
    lemma_floor_sqrt_brackets(a);
    lemma_below_floor_sqrt(b, floor_sqrt(a));
}

} // verus!
