//! Fixed-point plane geometry: contacts between discs, bearings relative to
//! a heading, and the arena's walls.
use crate::grid::{Point, UNIT};
use vstd::prelude::*;

verus! {

/// Largest coordinate, in sub-units.
pub const MAX_COORD: i64 = 1_000_000_000;
/// Bound on any single displacement or energy change that one contact
/// produces.
pub const STEP_CAP: i64 = 4_000_000_000_000_000;

/// Largest radius of any entity, in sub-units.
pub const MAX_RADIUS: i64 = 1_000_000;

/// The square root rounded down, by bisection.
pub fn isqrt(n: u64) -> (r: u64)
    ensures
        r * r <= n < (r + 1) * (r + 1),
{
    let mut lo: u64 = 0;
    let mut hi: u64 = 0x1_0000_0000;
    assert(n < hi * hi) by (nonlinear_arith)
        requires hi == 0x1_0000_0000, n <= 0xffff_ffff_ffff_ffff;
    while hi - lo > 1
        invariant
            lo < hi <= 0x1_0000_0000,
            lo * lo <= n,
            n < hi * hi,
        decreases hi - lo,
    {
        let mid = lo + (hi - lo) / 2;
        assert(mid * mid <= 0xffff_fffe_0000_0001) by (nonlinear_arith)
            requires mid < 0x1_0000_0000;
        if mid * mid <= n {
            lo = mid;
        } else {
            hi = mid;
        }
    }
    lo
}

/// Division rounded toward zero, for a positive divisor.
pub open spec fn tdiv(n: int, d: int) -> int {
    if n >= 0 {
        n / d
    } else {
        -((-n) / d)
    }
}

/// A quotient rounded toward zero is bounded as the dividend is.
pub proof fn lemma_tdiv_bound(n: int, d: int, m: int)
    requires
        d > 0,
        m >= 0,
        -(m * d) <= n <= m * d,
    ensures
        -m <= tdiv(n, d) <= m,
{
    if n >= 0 {
        assert(n / d <= m) by (nonlinear_arith)
            requires 0 <= n <= m * d, d > 0;
        assert(n / d >= 0) by (nonlinear_arith)
            requires 0 <= n, d > 0;
    } else {
        assert((-n) / d <= m) by (nonlinear_arith)
            requires 0 <= -n <= m * d, d > 0;
        assert((-n) / d >= 0) by (nonlinear_arith)
            requires 0 <= -n, d > 0;
    }
}

/// Divides, rounding toward zero.
pub fn div_toward_zero(n: i64, d: i64) -> (r: i64)
    requires
        d > 0,
        n > i64::MIN,
    ensures
        r == tdiv(n as int, d as int),
        n >= 0 ==> 0 <= r <= n,
        n < 0 ==> n <= r <= 0,
{
    if n >= 0 {
        assert(n / d <= n) by (nonlinear_arith)
            requires n >= 0, d > 0;
        n / d
    } else {
        let m: i64 = -n;
        assert(m / d <= m) by (nonlinear_arith)
            requires m >= 0, d > 0;
        -(m / d)
    }
}

/// `x` limited to `[-lim, lim]`.
pub open spec fn clamped(x: int, lim: int) -> int {
    if x > lim {
        lim
    } else if x < -lim {
        -lim
    } else {
        x
    }
}

/// Limits a value to `[-lim, lim]`.
pub fn clamp(x: i64, lim: i64) -> (r: i64)
    requires
        lim >= 0,
    ensures
        r == clamped(x as int, lim as int),
        -lim <= r <= lim,
{
    if x > lim {
        lim
    } else if x < -lim {
        -lim
    } else {
        x
    }
}

/// A point of the arena's closed square.
pub open spec fn in_box(p: Point) -> bool {
    0 <= p.x <= MAX_COORD && 0 <= p.y <= MAX_COORD
}

/// A vector no longer than `UNIT` along either axis.
pub open spec fn unit_box(h: Point) -> bool {
    -UNIT <= h.x <= UNIT && -UNIT <= h.y <= UNIT
}

/// The disc of radius `r` around coordinate `i` reaches the low wall.
pub fn lef_border_trespass(i: i64, r: i64) -> (b: bool)
    requires
        0 <= i <= MAX_COORD,
        0 <= r <= MAX_RADIUS,
    ensures
        b == (i - r <= UNIT),
{
    i - r <= UNIT
}

/// The disc of radius `r` around coordinate `i` reaches the high wall of an
/// arena of side `side`.
pub fn rig_border_trespass(i: i64, r: i64, side: i64) -> (b: bool)
    requires
        0 <= i <= MAX_COORD,
        0 <= r <= MAX_RADIUS,
        0 <= side <= MAX_COORD,
    ensures
        b == (i + r >= side - UNIT),
{
    i + r >= side - UNIT
}

/// As `lef_border_trespass`, along the other axis.
pub fn top_border_trespass(j: i64, r: i64) -> (b: bool)
    requires
        0 <= j <= MAX_COORD,
        0 <= r <= MAX_RADIUS,
    ensures
        b == (j - r <= UNIT),
{
    j - r <= UNIT
}

/// As `rig_border_trespass`, along the other axis.
pub fn bot_border_trespass(j: i64, r: i64, side: i64) -> (b: bool)
    requires
        0 <= j <= MAX_COORD,
        0 <= r <= MAX_RADIUS,
        0 <= side <= MAX_COORD,
    ensures
        b == (j + r >= side - UNIT),
{
    j + r >= side - UNIT
}

/// The disc of radius `r` around `p` keeps at least one arena unit from
/// every wall.
pub open spec fn clear_of_walls(p: Point, r: int, side: int) -> bool {
    p.x - r > UNIT && p.x + r < side - UNIT && p.y - r > UNIT && p.y + r < side - UNIT
}

/// Out of bounds: the disc of radius `r` around `p` reaches a wall.
pub fn oob(p: Point, r: i64, side: i64) -> (b: bool)
    requires
        in_box(p),
        0 <= r <= MAX_RADIUS,
        0 <= side <= MAX_COORD,
    ensures
        b == !clear_of_walls(p, r as int, side as int),
{
    lef_border_trespass(p.x, r) || rig_border_trespass(p.x, r, side) || top_border_trespass(p.y, r)
        || bot_border_trespass(p.y, r, side)
}

/// Squared distance between two points.
pub open spec fn dist_sq(a: Point, b: Point) -> int {
    (b.x - a.x) * (b.x - a.x) + (b.y - a.y) * (b.y - a.y)
}

/// How one disc meets another: the vector from the first centre to the
/// second, the distance rounded down, and whether the discs overlap.
pub struct Contact {
    pub rel: Point,
    pub dist: i64,
    pub overlaps: bool,
}

/// The square root of `n`, rounded down.
pub open spec fn floor_sqrt(n: int) -> int
    decreases n,
{
    if n <= 0 {
        0
    } else {
        let r = floor_sqrt(n - 1);
        if (r + 1) * (r + 1) <= n {
            r + 1
        } else {
            r
        }
    }
}

/// The rounded-down square root squares to at most `n`, and its successor
/// squares to more.
pub proof fn lemma_floor_sqrt(n: int)
    requires
        n >= 0,
    ensures
        0 <= floor_sqrt(n),
        floor_sqrt(n) * floor_sqrt(n) <= n < (floor_sqrt(n) + 1) * (floor_sqrt(n) + 1),
    decreases n,
{
    if n > 0 {
        lemma_floor_sqrt(n - 1);
        let r = floor_sqrt(n - 1);
        if (r + 1) * (r + 1) <= n {
            assert(n < (r + 2) * (r + 2)) by (nonlinear_arith)
                requires (r + 1) * (r + 1) <= n, n - 1 < (r + 1) * (r + 1), r >= 0;
        }
    }
}

/// Only one number lies between the squares that way.
pub proof fn lemma_sqrt_unique(n: int, r: int)
    requires
        r >= 0,
        r * r <= n < (r + 1) * (r + 1),
    ensures
        r == floor_sqrt(n),
{
    lemma_floor_sqrt(n);
    let f = floor_sqrt(n);
    if r < f {
        assert((r + 1) * (r + 1) <= f * f) by (nonlinear_arith)
            requires r + 1 <= f, r >= 0;
    } else if r > f {
        assert((f + 1) * (f + 1) <= r * r) by (nonlinear_arith)
            requires f + 1 <= r, f >= 0;
    }
}

/// `ct` is the contact of a disc at `a` with one at `b`, whose radii sum to
/// `rsum`: the relative vector, the distance rounded down, and whether the
/// squared distance is below `rsum²`.
pub open spec fn contact_ok(ct: Contact, a: Point, b: Point, rsum: int) -> bool {
    &&& ct.rel == (Point { x: (b.x - a.x) as i64, y: (b.y - a.y) as i64 })
    &&& ct.dist * ct.dist <= dist_sq(a, b) < (ct.dist + 1) * (ct.dist + 1)
    &&& ct.dist == floor_sqrt(dist_sq(a, b))
    &&& 0 <= ct.dist <= 2 * MAX_COORD
    &&& -MAX_COORD <= ct.rel.x <= MAX_COORD
    &&& -MAX_COORD <= ct.rel.y <= MAX_COORD
    &&& ct.overlaps == (dist_sq(a, b) < rsum * rsum)
}

/// The contact of a disc at `a` with one at `b`, whose radii sum to `rsum`.
pub fn contact(a: Point, b: Point, rsum: i64) -> (r: Contact)
    requires
        in_box(a),
        in_box(b),
        0 <= rsum <= 2 * MAX_RADIUS,
    ensures
        contact_ok(r, a, b, rsum as int),
{
    let dx = b.x - a.x;
    let dy = b.y - a.y;
    assert(0 <= dx * dx <= MAX_COORD * MAX_COORD && 0 <= dy * dy <= MAX_COORD * MAX_COORD) by (nonlinear_arith)
        requires -MAX_COORD <= dx <= MAX_COORD, -MAX_COORD <= dy <= MAX_COORD;
    assert(rsum * rsum <= 4 * MAX_RADIUS * MAX_RADIUS) by (nonlinear_arith)
        requires 0 <= rsum <= 2 * MAX_RADIUS;
    let d2 = dx * dx + dy * dy;
    let dist = isqrt(d2 as u64);
    assert(dist <= 2 * MAX_COORD) by (nonlinear_arith)
        requires dist * dist <= d2, d2 <= 2 * MAX_COORD * MAX_COORD, dist >= 0;
    proof {
        lemma_sqrt_unique(d2 as int, dist as int);
    }
    Contact { rel: Point { x: dx, y: dy }, dist: dist as i64, overlaps: d2 < rsum * rsum }
}

/// Dot product.
pub open spec fn dot(h: Point, c: Point) -> int {
    h.x * c.x + h.y * c.y
}

/// Cross product.
pub open spec fn cross(h: Point, c: Point) -> int {
    h.x * c.y - h.y * c.x
}

/// Bounds on the products of a heading with an arena vector.
pub proof fn lemma_products(h: Point, c: Point)
    requires
        unit_box(h),
        -MAX_COORD <= c.x <= MAX_COORD,
        -MAX_COORD <= c.y <= MAX_COORD,
    ensures
        -UNIT * MAX_COORD <= h.x * c.x <= UNIT * MAX_COORD,
        -UNIT * MAX_COORD <= h.y * c.y <= UNIT * MAX_COORD,
        -UNIT * MAX_COORD <= h.x * c.y <= UNIT * MAX_COORD,
        -UNIT * MAX_COORD <= h.y * c.x <= UNIT * MAX_COORD,
        -2 * UNIT * MAX_COORD <= dot(h, c) <= 2 * UNIT * MAX_COORD,
        -2 * UNIT * MAX_COORD <= cross(h, c) <= 2 * UNIT * MAX_COORD,
{
    assert(-UNIT * MAX_COORD <= h.x * c.x <= UNIT * MAX_COORD) by (nonlinear_arith)
        requires -UNIT <= h.x <= UNIT, -MAX_COORD <= c.x <= MAX_COORD;
    assert(-UNIT * MAX_COORD <= h.y * c.y <= UNIT * MAX_COORD) by (nonlinear_arith)
        requires -UNIT <= h.y <= UNIT, -MAX_COORD <= c.y <= MAX_COORD;
    assert(-UNIT * MAX_COORD <= h.x * c.y <= UNIT * MAX_COORD) by (nonlinear_arith)
        requires -UNIT <= h.x <= UNIT, -MAX_COORD <= c.y <= MAX_COORD;
    assert(-UNIT * MAX_COORD <= h.y * c.x <= UNIT * MAX_COORD) by (nonlinear_arith)
        requires -UNIT <= h.y <= UNIT, -MAX_COORD <= c.x <= MAX_COORD;
}

/// Bearing of `c` relative to heading `h`, as (sine, cosine) scaled by the
/// heading's length: cross and dot product over the distance; (0, 0) when the
/// distance is zero.
pub open spec fn bearing_spec(h: Point, c: Point, dist: int) -> (int, int) {
    if dist == 0 {
        (0, 0)
    } else {
        (tdiv(cross(h, c), dist), tdiv(dot(h, c), dist))
    }
}

/// The bearing of a relative vector seen along a heading.
pub fn bearing(h: Point, c: Point, dist: i64) -> (r: (i64, i64))
    requires
        unit_box(h),
        -MAX_COORD <= c.x <= MAX_COORD,
        -MAX_COORD <= c.y <= MAX_COORD,
        dist >= 0,
    ensures
        r.0 == bearing_spec(h, c, dist as int).0,
        r.1 == bearing_spec(h, c, dist as int).1,
        -2 * UNIT * MAX_COORD <= r.0 <= 2 * UNIT * MAX_COORD,
        -2 * UNIT * MAX_COORD <= r.1 <= 2 * UNIT * MAX_COORD,
{
    if dist == 0 {
        (0, 0)
    } else {
        proof {
            lemma_products(h, c);
        }
        let cr = h.x * c.y - h.y * c.x;
        let dt = h.x * c.x + h.y * c.y;
        (div_toward_zero(cr, dist), div_toward_zero(dt, dist))
    }
}

/// The push that separates an overlapping disc: two thirds of the overlap,
/// directed from the other centre back towards this one; none when the
/// centres coincide.
pub open spec fn push_spec(c: Point, dist: int, overlap: int) -> Point {
    if dist == 0 {
        Point { x: 0, y: 0 }
    } else {
        Point { x: tdiv(-(2 * overlap * c.x), 3 * dist) as i64, y: tdiv(-(2 * overlap * c.y), 3 * dist) as i64 }
    }
}

/// Positional correction for an overlap of `overlap` along `c`.
pub fn push_apart(c: Point, dist: i64, overlap: i64) -> (r: Point)
    requires
        -MAX_COORD <= c.x <= MAX_COORD,
        -MAX_COORD <= c.y <= MAX_COORD,
        0 <= dist <= 2 * MAX_COORD,
        0 <= overlap <= 2 * MAX_RADIUS,
    ensures
        r == push_spec(c, dist as int, overlap as int),
        -2 * MAX_RADIUS * MAX_COORD <= r.x <= 2 * MAX_RADIUS * MAX_COORD,
        -2 * MAX_RADIUS * MAX_COORD <= r.y <= 2 * MAX_RADIUS * MAX_COORD,
{
    if dist == 0 {
        Point { x: 0, y: 0 }
    } else {
        assert(-4 * MAX_RADIUS * MAX_COORD <= 2 * overlap * c.x <= 4 * MAX_RADIUS * MAX_COORD) by (nonlinear_arith)
            requires 0 <= overlap <= 2 * MAX_RADIUS, -MAX_COORD <= c.x <= MAX_COORD;
        assert(-4 * MAX_RADIUS * MAX_COORD <= 2 * overlap * c.y <= 4 * MAX_RADIUS * MAX_COORD) by (nonlinear_arith)
            requires 0 <= overlap <= 2 * MAX_RADIUS, -MAX_COORD <= c.y <= MAX_COORD;
        let nx = -(2 * overlap * c.x);
        let ny = -(2 * overlap * c.y);
        let den = 3 * dist;
        let px = div_toward_zero(nx, den);
        let py = div_toward_zero(ny, den);
        assert(-2 * MAX_RADIUS * MAX_COORD <= px <= 2 * MAX_RADIUS * MAX_COORD) by (nonlinear_arith)
            requires -4 * MAX_RADIUS * MAX_COORD <= nx <= 4 * MAX_RADIUS * MAX_COORD, den >= 3,
                px == tdiv(nx as int, den as int);
        assert(-2 * MAX_RADIUS * MAX_COORD <= py <= 2 * MAX_RADIUS * MAX_COORD) by (nonlinear_arith)
            requires -4 * MAX_RADIUS * MAX_COORD <= ny <= 4 * MAX_RADIUS * MAX_COORD, den >= 3,
                py == tdiv(ny as int, den as int);
        Point { x: px, y: py }
    }
}

} // verus!
