//! Integer geometry for the boss fight: vectors, clamping, a sine table by
//! formula and the clamping of a speed.
use vstd::prelude::*;
use crate::enemy::{in_world, WORLD_LIMIT};

verus! {

/// A 2D vector of integers.
#[derive(Clone, Copy, Debug, PartialEq, Eq, Structural)]
pub struct Vec2 {
    pub x: i64,
    pub y: i64,
}

/// Both coordinates lie inside the world.
pub open spec fn vec_in_world(v: Vec2) -> bool {
    in_world(v.x) && in_world(v.y)
}

/// Division that rounds toward zero, as Rust's `/` does.
pub open spec fn trunc_div(a: int, d: int) -> int {
    if a >= 0 {
        a / d
    } else {
        -((-a) / d)
    }
}

/// `v` pulled back into the world.
pub open spec fn world_clamp(v: int) -> int {
    if v < -WORLD_LIMIT {
        -WORLD_LIMIT as int
    } else if v > WORLD_LIMIT {
        WORLD_LIMIT as int
    } else {
        v
    }
}

/// Bhaskara's approximation of the sine on half a turn, in ten-thousandths,
/// for an angle of `d` degrees with `0 <= d <= 180`.
pub open spec fn half_turn_sine(d: int) -> int {
    40000 * d * (180 - d) / (40500 - d * (180 - d))
}

/// An approximation of the sine of `deg` degrees, `0 <= deg < 360`, in
/// ten-thousandths (within about sixteen ten-thousandths of the true value).
pub open spec fn sine_e4(deg: int) -> int {
    if deg < 180 {
        half_turn_sine(deg)
    } else {
        -half_turn_sine(deg - 180)
    }
}

/// An approximation of the cosine of `deg` degrees, `0 <= deg < 360`, in
/// ten-thousandths: the approximate sine a quarter turn on.
pub open spec fn cosine_e4(deg: int) -> int {
    sine_e4((deg + 90) % 360)
}

/// `r` is the least non-negative integer whose square reaches `n`.
pub open spec fn is_ceil_sqrt(n: int, r: int) -> bool {
    r >= 0 && r * r >= n && (r == 0 || (r - 1) * (r - 1) < n)
}

/// The least non-negative integer whose square reaches `n`.
pub open spec fn ceil_root(n: int) -> int {
    choose|r: int| is_ceil_sqrt(n, r)
}

/// A vector of speed `m` pointing about `deg` degrees counter-clockwise from
/// the x axis: its x is `m` times the approximate cosine, rounded toward zero;
/// its y has the sign of the sine and is the least length that brings the
/// vector's length to `m` or beyond. So the length lies from `m` up to, not
/// including, `m + 1`.
pub open spec fn polar(m: int, deg: int) -> (int, int) {
    let x = trunc_div(m * cosine_e4(deg), 10000);
    let y = ceil_root(m * m - x * x);
    (x, if deg < 180 { y } else { -y })
}

proof fn lemma_ceil_root_is(n: int, r: int)
    requires
        is_ceil_sqrt(n, r),
    ensures
        ceil_root(n) == r,
{
    let k = ceil_root(n);
    assert(is_ceil_sqrt(n, k));
    if k < r {
        assert((r - 1) * (r - 1) >= k * k) by (nonlinear_arith)
            requires
                0 <= k <= r - 1,
        ;
    }
    if r < k {
        assert((k - 1) * (k - 1) >= r * r) by (nonlinear_arith)
            requires
                0 <= r <= k - 1,
        ;
    }
}

/// Rounds toward zero.
pub fn div_toward_zero(a: i128, d: i128) -> (r: i128)
    requires
        d > 0,
        a > i128::MIN,
    ensures
        r == trunc_div(a as int, d as int),
{
    if a >= 0 {
        a / d
    } else {
        -((-a) / d)
    }
}

/// Pulls a value back into the world.
pub fn clamp_to_world(v: i128) -> (r: i64)
    ensures
        r == world_clamp(v as int),
        in_world(r),
{
    if v < -(WORLD_LIMIT as i128) {
        -WORLD_LIMIT
    } else if v > WORLD_LIMIT as i128 {
        WORLD_LIMIT
    } else {
        v as i64
    }
}

proof fn lemma_half_turn_sine_range(d: int)
    requires
        0 <= d <= 180,
    ensures
        0 <= half_turn_sine(d) <= 10000,
        40500 - d * (180 - d) >= 32400,
{
    let p = d * (180 - d);
    assert(0 <= p <= 8100) by (nonlinear_arith)
        requires
            0 <= d <= 180,
            p == d * (180 - d),
    ;
    assert(40000 * d * (180 - d) == 40000 * p) by (nonlinear_arith)
        requires
            p == d * (180 - d),
    ;
    let den = 40500 - p;
    assert(0 <= 40000 * p <= 10000 * den) by (nonlinear_arith)
        requires
            0 <= p <= 8100,
            den == 40500 - p,
    ;
    assert(40000 * p / den <= 10000) by (nonlinear_arith)
        requires
            0 <= 40000 * p <= 10000 * den,
            den > 0,
    ;
    assert(40000 * p / den >= 0) by (nonlinear_arith)
        requires
            0 <= 40000 * p,
            den > 0,
    ;
}

fn half_turn_sine_exec(d: i64) -> (r: i64)
    requires
        0 <= d <= 180,
    ensures
        r == half_turn_sine(d as int),
        0 <= r <= 10000,
{
    proof {
        lemma_half_turn_sine_range(d as int);
    }
    let p: i64 = d * (180 - d);
    assert(40000 * d * (180 - d) == 40000 * p) by (nonlinear_arith)
        requires
            p == d * (180 - d),
    ;
    (40000 * p) / (40500 - p)
}

/// The sine of `deg` degrees in ten-thousandths.
pub fn sine(deg: i64) -> (r: i64)
    requires
        0 <= deg < 360,
    ensures
        r == sine_e4(deg as int),
        -10000 <= r <= 10000,
{
    if deg < 180 {
        half_turn_sine_exec(deg)
    } else {
        -half_turn_sine_exec(deg - 180)
    }
}

/// The cosine of `deg` degrees in ten-thousandths.
pub fn cosine(deg: i64) -> (r: i64)
    requires
        0 <= deg < 360,
    ensures
        r == cosine_e4(deg as int),
        -10000 <= r <= 10000,
{
    sine((deg + 90) % 360)
}

/// A vector of speed `m` at about `deg` degrees; its length lies from `m`
/// up to, not including, `m + 1`.
pub fn from_polar(m: i64, deg: i64) -> (v: Vec2)
    requires
        0 <= m <= 1_000_000,
        0 <= deg < 360,
    ensures
        (v.x as int, v.y as int) == polar(m as int, deg as int),
        m * m <= v.x * v.x + v.y * v.y < (m + 1) * (m + 1),
        -m <= v.x <= m,
        -m <= v.y <= m,
{
    let c = cosine(deg);
    assert(-10000 * m <= m * c <= 10000 * m) by (nonlinear_arith)
        requires
            0 <= m <= 1_000_000,
            -10000 <= c <= 10000,
    ;
    let x128 = div_toward_zero((m as i128) * (c as i128), 10000);
    proof {
        let a = m * c;
        if a >= 0 {
            assert(a / 10000 <= m) by (nonlinear_arith)
                requires
                    0 <= a <= 10000 * m,
            ;
        } else {
            assert((-a) / 10000 <= m) by (nonlinear_arith)
                requires
                    0 <= -a <= 10000 * m,
            ;
        }
    }
    let x = x128 as i64;
    assert(0 <= x * x <= m * m) by (nonlinear_arith)
        requires
            -m <= x <= m,
    ;
    assert(m * m <= 1_000_000_000_000) by (nonlinear_arith)
        requires
            0 <= m <= 1_000_000,
    ;
    let n: i64 = m * m - x * x;
    let root = ceil_sqrt(n as u128);
    proof {
        if root > m {
            assert((root - 1) * (root - 1) >= m * m) by (nonlinear_arith)
                requires
                    0 <= m <= root - 1,
            ;
        }
    }
    let r = root as i64;
    proof {
        lemma_ceil_root_is(n as int, r as int);
        if r > 0 {
            assert(r * r < n + 2 * r) by (nonlinear_arith)
                requires
                    (r - 1) * (r - 1) < n,
            ;
            assert(x * x + r * r < (m + 1) * (m + 1)) by (nonlinear_arith)
                requires
                    r * r < n + 2 * r,
                    n == m * m - x * x,
                    r <= m,
            ;
        } else {
            assert(x * x + r * r < (m + 1) * (m + 1)) by (nonlinear_arith)
                requires
                    r == 0,
                    0 <= x * x <= m * m,
                    m >= 0,
            ;
        }
    }
    let y = if deg < 180 { r } else { -r };
    assert(y * y == r * r) by (nonlinear_arith)
        requires
            y == r || y == -r,
    ;
    Vec2 { x, y }
}

/// The least non-negative integer whose square reaches `n`.
pub fn ceil_sqrt(n: u128) -> (r: u128)
    requires
        n <= 0x4000_0000_0000_0000_0000_0000_0000_0000,
    ensures
        is_ceil_sqrt(n as int, r as int),
        r <= 0x8000_0000_0000_0000,
{
    if n == 0 {
        return 0;
    }
    let mut lo: u128 = 0;
    let mut hi: u128 = 0x8000_0000_0000_0000;
    assert(hi * hi == 0x4000_0000_0000_0000_0000_0000_0000_0000);
    while hi - lo > 1
        invariant
            0 < n,
            lo < hi <= 0x8000_0000_0000_0000,
            lo * lo < n,
            hi * hi >= n,
        decreases hi - lo,
    {
        let mid = lo + (hi - lo) / 2;
        assert(mid * mid <= 0x4000_0000_0000_0000_0000_0000_0000_0000) by (nonlinear_arith)
            requires
                mid <= 0x8000_0000_0000_0000,
        ;
        if mid * mid >= n {
            hi = mid;
        } else {
            lo = mid;
        }
    }
    assert(hi - 1 == lo);
    hi
}

} // verus!
