//! Fixed-point plane geometry: points, squared distances, integer square
//! roots and the overlap tolerance shared by every shape.
use vstd::prelude::*;

verus! {

/// Steps per world unit on each axis.
pub const SCALE: i64 = 1000;

/// Slack allowed when comparing a squared distance with a squared radius:
/// a thousandth of a square world unit, in squared steps.
pub const TOLERANCE: u128 = 1000;

/// A point of the plane in fixed-point coordinates (`SCALE` steps per unit).
#[derive(Clone, Copy, Debug, PartialEq, Eq, Structural)]
pub struct Point {
    pub x: i32,
    pub y: i32,
}

impl Point {
    /// The point `(x, y)`, in steps.
    pub fn new(x: i32, y: i32) -> (r: Point)
        ensures
            r.x == x,
            r.y == y,
    {
        Point { x, y }
    }
}

/// Squared Euclidean distance between two points.
pub open spec fn dist2(a: Point, b: Point) -> int {
    (a.x - b.x) * (a.x - b.x) + (a.y - b.y) * (a.y - b.y)
}

/// Manhattan distance between two points.
pub open spec fn manhattan(a: Point, b: Point) -> int {
    abs(a.x - b.x) + abs(a.y - b.y)
}

/// Absolute value.
pub open spec fn abs(v: int) -> int {
    if v < 0 { -v } else { v }
}

/// `r` is the integer square root of `n`, rounded down.
pub open spec fn is_floor_sqrt(n: int, r: int) -> bool {
    0 <= r && r * r <= n < (r + 1) * (r + 1)
}

/// The integer square root of `n`, rounded down.
pub open spec fn floor_sqrt(n: int) -> int {
    choose|r: int| is_floor_sqrt(n, r)
}

/// The Euclidean distance between two points, rounded down to a step.
pub open spec fn dist(a: Point, b: Point) -> int {
    floor_sqrt(dist2(a, b))
}

/// A number has at most one integer square root rounded down.
pub proof fn lemma_floor_sqrt_unique(n: int, r: int, s: int)
    requires
        is_floor_sqrt(n, r),
        is_floor_sqrt(n, s),
    ensures
        r == s,
{
    if r < s {
        assert((r + 1) * (r + 1) <= s * s) by (nonlinear_arith)
            requires 0 <= r, r + 1 <= s;
    } else if s < r {
        assert((s + 1) * (s + 1) <= r * r) by (nonlinear_arith)
            requires 0 <= s, s + 1 <= r;
    }
}

/// Any integer square root rounded down is `floor_sqrt`.
pub proof fn lemma_floor_sqrt(n: int, r: int)
    requires
        is_floor_sqrt(n, r),
    ensures
        floor_sqrt(n) == r,
{
    let s = floor_sqrt(n);
    assert(is_floor_sqrt(n, s));
    lemma_floor_sqrt_unique(n, r, s);
}

/// Every number at least zero has an integer square root rounded down.
pub proof fn lemma_floor_sqrt_exists(n: int)
    requires
        0 <= n,
    ensures
        is_floor_sqrt(n, floor_sqrt(n)),
    decreases n,
{
    if n == 0 {
        assert(is_floor_sqrt(0, 0));
        lemma_floor_sqrt(0, 0);
    } else {
        lemma_floor_sqrt_exists(n - 1);
        let r = floor_sqrt(n - 1);
        if (r + 1) * (r + 1) <= n {
            assert((r + 2) * (r + 2) > n) by (nonlinear_arith)
                requires (r + 1) * (r + 1) == n, r >= 0;
            lemma_floor_sqrt(n, r + 1);
        } else {
            lemma_floor_sqrt(n, r);
        }
    }
}

/// The square of a difference of two `i32` values fits in 64 bits.
pub proof fn lemma_square_bound(d: int)
    requires
        -0x1_0000_0000 <= d <= 0x1_0000_0000,
    ensures
        0 <= d * d <= 0x1_0000_0000_0000_0000,
{
    assert(0 <= d * d <= 0x1_0000_0000_0000_0000) by (nonlinear_arith)
        requires -0x1_0000_0000 <= d <= 0x1_0000_0000;
}

/// Squared Euclidean distance between two points.
pub fn square_dist(a: Point, b: Point) -> (r: u128)
    ensures
        r == dist2(a, b),
        r <= 0x2_0000_0000_0000_0000,
{
    let dx: i128 = a.x as i128 - b.x as i128;
    let dy: i128 = a.y as i128 - b.y as i128;
    proof {
        lemma_square_bound(dx as int);
        lemma_square_bound(dy as int);
    }
    (dx * dx + dy * dy) as u128
}

/// Manhattan distance between two points.
pub fn manhattan_dist(a: Point, b: Point) -> (r: u64)
    ensures
        r == manhattan(a, b),
        r <= 0x2_0000_0000,
{
    let dx: i64 = a.x as i64 - b.x as i64;
    let dy: i64 = a.y as i64 - b.y as i64;
    let ax: i64 = if dx < 0 { -dx } else { dx };
    let ay: i64 = if dy < 0 { -dy } else { dy };
    (ax + ay) as u64
}

/// Integer square root, rounded down.
pub fn isqrt(n: u128) -> (r: u64)
    requires
        n <= 0x2_0000_0000_0000_0000,
    ensures
        is_floor_sqrt(n as int, r as int),
        r == floor_sqrt(n as int),
        r <= 0x2_0000_0000,
{
    let mut lo: u128 = 0;
    let mut hi: u128 = 0x2_0000_0001;
    assert(n < hi * hi) by (nonlinear_arith)
        requires n <= 0x2_0000_0000_0000_0000, hi == 0x2_0000_0001;
    while lo + 1 < hi
        invariant
            lo < hi <= 0x2_0000_0001,
            lo * lo <= n,
            n < hi * hi,
        decreases hi - lo,
    {
        let mid: u128 = lo + (hi - lo) / 2;
        assert(mid * mid <= 0x4_0000_0004_0000_0001) by (nonlinear_arith)
            requires mid <= 0x2_0000_0001;
        if mid * mid <= n {
            lo = mid;
        } else {
            hi = mid;
        }
    }
    assert(hi == lo + 1);
    proof {
        lemma_floor_sqrt(n as int, lo as int);
    }
    assert(lo <= 0x2_0000_0000) by (nonlinear_arith)
        requires lo * lo <= n, n <= 0x2_0000_0000_0000_0000, lo < 0x2_0000_0001;
    lo as u64
}

/// Euclidean distance between two points, rounded down to a step.
pub fn distance(a: Point, b: Point) -> (r: u64)
    ensures
        r == dist(a, b),
        r <= 0x2_0000_0000,
{
    isqrt(square_dist(a, b))
}

} // verus!
