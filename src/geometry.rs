//! Points of the plane and the bounded step toward a target.
use vstd::arithmetic::div_mod::{lemma_fundamental_div_mod, lemma_mod_pos_bound};
use vstd::prelude::*;

verus! {

/// The longest edge that one growth step may add, in viewport units.
pub const MAX_STEP: u64 = 20;

/// A point of the viewport, in whole units, with the origin at its centre.
#[derive(Clone, Copy, Debug, PartialEq, Eq, Structural)]
pub struct Point {
    pub x: i32,
    pub y: i32,
}

impl Point {
    pub fn new(x: i32, y: i32) -> (r: Point)
        ensures
            r == (Point { x, y }),
    {
        Point { x, y }
    }
}

/// The square of the Euclidean distance between two points.
pub open spec fn dist2(a: Point, b: Point) -> int {
    (a.x - b.x) * (a.x - b.x) + (a.y - b.y) * (a.y - b.y)
}

/// `c` is the square root of `n`, rounded up.
pub open spec fn is_ceil_sqrt(n: int, c: int) -> bool {
    &&& c >= 0
    &&& c * c >= n
    &&& (c == 0 || (c - 1) * (c - 1) < n)
}

/// The square root of `n` rounded up (for `n >= 0`).
pub open spec fn ceil_sqrt(n: int) -> int {
    choose|c: int| is_ceil_sqrt(n, c)
}

/// One component of a step of length `MAX_STEP` along a vector with the
/// component `d` and the length `len`, rounded toward zero.
pub open spec fn scaled(d: int, len: int) -> int {
    if d >= 0 {
        d * MAX_STEP / len
    } else {
        -((-d) * MAX_STEP / len)
    }
}

/// Where a node grown from `from` toward `to` lands: on `to` itself when it
/// lies within `MAX_STEP`, and otherwise `MAX_STEP` along the direction to it.
/// When `to == from` the step has length zero.
pub open spec fn step_toward(from: Point, to: Point) -> Point {
    let d2 = dist2(from, to);
    if d2 <= MAX_STEP * MAX_STEP {
        to
    } else {
        let len = ceil_sqrt(d2);
        Point {
            x: (from.x + scaled(to.x - from.x, len)) as i32,
            y: (from.y + scaled(to.y - from.y, len)) as i32,
        }
    }
}

proof fn lemma_ceil_sqrt_unique(n: int, a: int, b: int)
    requires
        is_ceil_sqrt(n, a),
        is_ceil_sqrt(n, b),
    ensures
        a == b,
{
    if a < b {
        assert((b - 1) * (b - 1) >= a * a) by (nonlinear_arith)
            requires
                0 <= a <= b - 1,
        ;
    } else if b < a {
        assert((a - 1) * (a - 1) >= b * b) by (nonlinear_arith)
            requires
                0 <= b <= a - 1,
        ;
    }
}

/// A root found by search is the one that `ceil_sqrt` names.
proof fn lemma_ceil_sqrt_is(n: int, c: int)
    requires
        is_ceil_sqrt(n, c),
    ensures
        ceil_sqrt(n) == c,
{
    assert(is_ceil_sqrt(n, ceil_sqrt(n)));
    lemma_ceil_sqrt_unique(n, c, ceil_sqrt(n));
}

proof fn lemma_square_bound(a: int, bound: int)
    requires
        0 <= a <= bound,
    ensures
        0 <= a * a <= bound * bound,
{
    assert(0 <= a * a <= bound * bound) by (nonlinear_arith)
        requires
            0 <= a <= bound,
    ;
}

proof fn lemma_ceil_sqrt_exists(n: int)
    ensures
        exists|c: int| is_ceil_sqrt(n, c),
    decreases n,
{
    if n <= 0 {
        assert(is_ceil_sqrt(n, 0));
    } else {
        let m = n - 1;
        lemma_ceil_sqrt_exists(m);
        let c = choose|c: int| is_ceil_sqrt(m, c);
        if c * c >= n {
            assert(is_ceil_sqrt(n, c));
        } else {
            assert((c + 1) * (c + 1) == c * c + 2 * c + 1) by (nonlinear_arith);
            assert(is_ceil_sqrt(n, c + 1));
        }
    }
}

/// What `ceil_sqrt` gives satisfies `is_ceil_sqrt`.
proof fn lemma_ceil_sqrt_holds(n: int)
    ensures
        is_ceil_sqrt(n, ceil_sqrt(n)),
{
    lemma_ceil_sqrt_exists(n);
}

/// The magnitude of one component of a long step: it is no longer than the
/// component it scales, and it scales it by at most `MAX_STEP / len`.
proof fn lemma_scaled_magnitude(a: int, len: int)
    requires
        a >= 0,
        len > MAX_STEP,
    ensures
        0 <= a * MAX_STEP / len <= a,
        (a * MAX_STEP / len) * len <= a * MAX_STEP,
{
    let x = a * MAX_STEP;
    let q = x / len;
    lemma_fundamental_div_mod(x, len);
    lemma_mod_pos_bound(x, len);
    assert(q * len <= x) by (nonlinear_arith)
        requires
            x == len * q + x % len,
            x % len >= 0,
    ;
    assert(0 <= q) by (nonlinear_arith)
        requires
            x >= 0,
            x == len * q + x % len,
            x % len < len,
            len > 0,
    ;
    assert(q <= a) by (nonlinear_arith)
        requires
            q * len <= a * MAX_STEP,
            len > MAX_STEP,
            a >= 0,
            q >= 0,
    ;
}

/// A root of `d2` longer than `MAX_STEP` exists once `d2` exceeds its square.
proof fn lemma_long_root(d2: int, c: int)
    requires
        d2 > MAX_STEP * MAX_STEP,
        is_ceil_sqrt(d2, c),
    ensures
        c > MAX_STEP,
{
    if c <= MAX_STEP {
        lemma_square_bound(c, MAX_STEP as int);
    }
}

/// A step never leaves the box spanned by its two ends, so its coordinates
/// fit; it is at most `MAX_STEP` long, and no longer than the way to the
/// target. A step of exactly `MAX_STEP` therefore comes only from a target at
/// least that far away, and a target within reach is taken as it is.
pub proof fn lemma_step_bound(from: Point, to: Point)
    ensures
        dist2(step_toward(from, to), from) <= MAX_STEP * MAX_STEP,
        dist2(step_toward(from, to), from) <= dist2(to, from),
        dist2(step_toward(from, to), from) == MAX_STEP * MAX_STEP ==> dist2(to, from)
            >= MAX_STEP * MAX_STEP,
        dist2(to, from) <= MAX_STEP * MAX_STEP ==> step_toward(from, to) == to,
        from.x <= step_toward(from, to).x <= to.x || to.x <= step_toward(from, to).x <= from.x,
        from.y <= step_toward(from, to).y <= to.y || to.y <= step_toward(from, to).y <= from.y,
{
    let d2 = dist2(from, to);
    assert((to.x - from.x) * (to.x - from.x) == (from.x - to.x) * (from.x - to.x)) by (nonlinear_arith);
    assert((to.y - from.y) * (to.y - from.y) == (from.y - to.y) * (from.y - to.y)) by (nonlinear_arith);
    if d2 > MAX_STEP * MAX_STEP {
        let len = ceil_sqrt(d2);
        lemma_ceil_sqrt_holds(d2);
        lemma_long_root(d2, len);
        let dx = to.x - from.x;
        let dy = to.y - from.y;
        let ax = if dx >= 0 { dx } else { -dx };
        let ay = if dy >= 0 { dy } else { -dy };
        lemma_scaled_magnitude(ax, len);
        lemma_scaled_magnitude(ay, len);
        let qx = ax * MAX_STEP / len;
        let qy = ay * MAX_STEP / len;
        let s = step_toward(from, to);
        assert(s.x - from.x == qx || s.x - from.x == -qx);
        assert(s.y - from.y == qy || s.y - from.y == -qy);
        assert(dist2(s, from) == qx * qx + qy * qy) by (nonlinear_arith)
            requires
                s.x - from.x == qx || s.x - from.x == -qx,
                s.y - from.y == qy || s.y - from.y == -qy,
        ;
        assert(d2 == ax * ax + ay * ay) by (nonlinear_arith)
            requires
                d2 == dx * dx + dy * dy,
                ax == dx || ax == -dx,
                ay == dy || ay == -dy,
        ;
        assert(qx * qx + qy * qy <= ax * ax + ay * ay) by (nonlinear_arith)
            requires
                0 <= qx <= ax,
                0 <= qy <= ay,
        ;
        assert(qx * qx + qy * qy <= MAX_STEP * MAX_STEP) by (nonlinear_arith)
            requires
                0 <= qx,
                0 <= qy,
                qx * len <= ax * MAX_STEP,
                qy * len <= ay * MAX_STEP,
                ax * ax + ay * ay <= len * len,
                len > 0,
        ;
    }
}

/// The absolute difference of two coordinates.
fn abs_diff(a: i32, b: i32) -> (r: u64)
    ensures
        r == if a >= b { a - b } else { b - a },
        r <= 0xffff_ffff,
{
    if a >= b {
        (a as i64 - b as i64) as u64
    } else {
        (b as i64 - a as i64) as u64
    }
}

/// The square of the distance between `a` and `b`.
pub fn distance_squared(a: Point, b: Point) -> (r: u128)
    ensures
        r == dist2(a, b),
{
    let dx = abs_diff(a.x, b.x);
    let dy = abs_diff(a.y, b.y);
    proof {
        lemma_square_bound(dx as int, 0xffff_ffff);
        lemma_square_bound(dy as int, 0xffff_ffff);
        assert(dx * dx == (a.x - b.x) * (a.x - b.x)) by (nonlinear_arith)
            requires
                dx == a.x - b.x || dx == b.x - a.x,
        ;
        assert(dy * dy == (a.y - b.y) * (a.y - b.y)) by (nonlinear_arith)
            requires
                dy == a.y - b.y || dy == b.y - a.y,
        ;
    }
    (dx as u128) * (dx as u128) + (dy as u128) * (dy as u128)
}

/// The square root of `n`, rounded up, found by bisection.
pub fn ceil_sqrt_of(n: u128) -> (r: u64)
    requires
        n <= 0x3_0000_0000_0000_0000,
    ensures
        r == ceil_sqrt(n as int),
{
    let mut lo: u128 = 0;
    let mut hi: u128 = 0x2_0000_0000;
    assert(hi * hi >= n) by (nonlinear_arith)
        requires
            hi == 0x2_0000_0000,
            n <= 0x3_0000_0000_0000_0000,
    ;
    while lo < hi
        invariant
            lo <= hi <= 0x2_0000_0000,
            hi * hi >= n,
            lo == 0 || (lo - 1) * (lo - 1) < n,
        decreases hi - lo,
    {
        let mid: u128 = lo + (hi - lo) / 2;
        proof {
            lemma_square_bound(mid as int, 0x2_0000_0000);
        }
        if mid * mid >= n {
            hi = mid;
        } else {
            lo = mid + 1;
        }
    }
    proof {
        lemma_ceil_sqrt_is(n as int, lo as int);
    }
    lo as u64
}

/// The point where a node grown from `from` toward `to` lands.
pub fn step(from: Point, to: Point) -> (r: Point)
    ensures
        r == step_toward(from, to),
{
    let d2 = distance_squared(from, to);
    if d2 <= (MAX_STEP * MAX_STEP) as u128 {
        return to;
    }
    proof {
        lemma_square_bound(if from.x >= to.x { from.x - to.x } else { to.x - from.x }, 0xffff_ffff);
        lemma_square_bound(if from.y >= to.y { from.y - to.y } else { to.y - from.y }, 0xffff_ffff);
        assert((from.x - to.x) * (from.x - to.x) == (to.x - from.x) * (to.x - from.x)) by (nonlinear_arith);
        assert((from.y - to.y) * (from.y - to.y) == (to.y - from.y) * (to.y - from.y)) by (nonlinear_arith);
    }
    let len = ceil_sqrt_of(d2);
    proof {
        lemma_ceil_sqrt_holds(d2 as int);
        lemma_long_root(d2 as int, len as int);
        lemma_step_bound(from, to);
    }
    let ax = abs_diff(to.x, from.x);
    let ay = abs_diff(to.y, from.y);
    proof {
        lemma_scaled_magnitude(ax as int, len as int);
        lemma_scaled_magnitude(ay as int, len as int);
    }
    let qx = ax * MAX_STEP / len;
    let qy = ay * MAX_STEP / len;
    let x = if to.x >= from.x { from.x as i64 + qx as i64 } else { from.x as i64 - qx as i64 };
    let y = if to.y >= from.y { from.y as i64 + qy as i64 } else { from.y as i64 - qy as i64 };
    Point { x: x as i32, y: y as i32 }
}

} // verus!
