//! Fixed-point geographic coordinates.

use vstd::prelude::*;

verus! {

/// A position on the globe.
///
/// `x` is the longitude and `y` the latitude, both in units of `1e-7` degrees, the resolution in
/// which map data is stored.
#[derive(Clone, Copy, Debug, PartialEq, Eq, Structural)]
pub struct Point {
    pub x: i32,
    pub y: i32,
}

/// An axis-parallel box of positions, borders belonging to it.
#[derive(Clone, Copy, Debug, PartialEq, Eq, Structural)]
pub struct BBox {
    pub min_x: i32,
    pub min_y: i32,
    pub max_x: i32,
    pub max_y: i32,
}

impl BBox {
    pub open spec fn holds(self, p: Point) -> bool {
        self.min_x <= p.x <= self.max_x && self.min_y <= p.y <= self.max_y
    }

    /// Whether `p` lies in the box.
    pub fn contains(&self, p: Point) -> (r: bool)
        ensures
            r == self.holds(p),
    {
        !(p.x < self.min_x || p.x > self.max_x || p.y < self.min_y || p.y > self.max_y)
    }
}

/// Whether `r` is the square root of `n`, rounded down.
pub open spec fn is_isqrt(n: nat, r: nat) -> bool {
    r * r <= n < (r + 1) * (r + 1)
}

/// The square root of `n`, rounded down.
pub open spec fn spec_isqrt(n: nat) -> nat {
    choose|r: nat| is_isqrt(n, r)
}

/// A number has one rounded square root only.
pub proof fn lemma_isqrt_unique(n: nat, a: nat, b: nat)
    requires
        is_isqrt(n, a),
        is_isqrt(n, b),
    ensures
        a == b,
{
    if a < b {
        assert((a + 1) * (a + 1) <= b * b) by (nonlinear_arith)
            requires
                a + 1 <= b,
        ;
    }
    if b < a {
        assert((b + 1) * (b + 1) <= a * a) by (nonlinear_arith)
            requires
                b + 1 <= a,
        ;
    }
}

/// The square root of `n`, rounded down.
pub fn isqrt(n: u128) -> (r: u64)
    ensures
        is_isqrt(n as nat, r as nat),
        r == spec_isqrt(n as nat),
{
    let mut lo: u128 = 0;
    let mut hi: u128 = 0x1_0000_0000_0000_0000;
    assert(0x1_0000_0000_0000_0000u128 * 0x1_0000_0000_0000_0000u128 > n) by (nonlinear_arith);
    assert(0u128 * 0u128 <= n) by (nonlinear_arith);
    while hi - lo > 1
        invariant
            lo < hi <= 0x1_0000_0000_0000_0000,
            lo * lo <= n < hi * hi,
        decreases hi - lo,
    {
        let mid: u128 = lo + (hi - lo) / 2;
        assert(mid * mid <= 0xffff_ffff_ffff_ffff * 0xffff_ffff_ffff_ffff) by (nonlinear_arith)
            requires
                mid <= 0xffff_ffff_ffff_ffff,
        ;
        if mid * mid <= n {
            lo = mid;
        } else {
            hi = mid;
        }
    }
    proof {
        assert(hi == lo + 1);
        assert(is_isqrt(n as nat, lo as nat));
        lemma_isqrt_unique(n as nat, lo as nat, spec_isqrt(n as nat));
    }
    lo as u64
}

/// The difference of two coordinates, without its sign.
pub open spec fn gap(a: i32, b: i32) -> nat {
    if a >= b {
        (a - b) as nat
    } else {
        (b - a) as nat
    }
}

/// The distance of two points in units of `1e-16` degrees of latitude, on a plane on which a
/// degree of longitude is `cos` billionths as long as a degree of latitude.
pub open spec fn plane_distance(p: Point, q: Point, cos: u32) -> nat {
    let dy = gap(p.y, q.y) * 1_000_000_000;
    let dx = gap(p.x, q.x) * (cos as nat);
    spec_isqrt(dy * dy + dx * dx)
}

/// Every number has a rounded square root.
pub proof fn lemma_isqrt_exists(n: nat) -> (r: nat)
    ensures
        is_isqrt(n, r),
        r == spec_isqrt(n),
    decreases n,
{
    let r: nat = if n == 0 {
        assert(is_isqrt(0, 0)) by (nonlinear_arith);
        0
    } else {
        let p = lemma_isqrt_exists((n - 1) as nat);
        if (p + 1) * (p + 1) <= n {
            assert((p + 1 + 1) * (p + 1 + 1) > (p + 1) * (p + 1)) by (nonlinear_arith);
            assert(is_isqrt(n, p + 1));
            p + 1
        } else {
            p
        }
    };
    assert(is_isqrt(n, r));
    lemma_isqrt_unique(n, r, spec_isqrt(n));
    r
}

pub proof fn lemma_plane_distance_bounded(p: Point, q: Point, cos: u32)
    requires
        cos <= 1_000_000_000,
    ensures
        plane_distance(p, q, cos) < 8_000_000_000_000_000_000,
{
    let dy = gap(p.y, q.y) * 1_000_000_000;
    let gx = gap(p.x, q.x);
    let c = cos as nat;
    let dx = gx * c;
    let top: nat = 4_294_967_295_000_000_000;
    assert(dx <= top) by (nonlinear_arith)
        requires
            gx <= 4_294_967_295,
            c <= 1_000_000_000,
            dx == gx * c,
            top == 4_294_967_295_000_000_000,
    ;
    assert(dx * dx <= top * top) by (nonlinear_arith)
        requires
            dx <= top,
    ;
    assert(dy * dy <= top * top) by (nonlinear_arith)
        requires
            dy <= top,
    ;
    let r = lemma_isqrt_exists(dy * dy + dx * dx);
    assert(r < 8_000_000_000_000_000_000) by (nonlinear_arith)
        requires
            r * r <= 2 * (4_294_967_295_000_000_000 * 4_294_967_295_000_000_000),
    ;
}

/// `plane_distance`, for a cosine of at most one.
pub fn distance_on_plane(p: Point, q: Point, cos: u32) -> (r: u64)
    requires
        cos <= 1_000_000_000,
    ensures
        r == plane_distance(p, q, cos),
        r < 8_000_000_000_000_000_000,
{
    let ax: i64 = p.x as i64 - q.x as i64;
    let ay: i64 = p.y as i64 - q.y as i64;
    let gx: u128 = if ax >= 0 { ax as u128 } else { (-ax) as u128 };
    let gy: u128 = if ay >= 0 { ay as u128 } else { (-ay) as u128 };
    let c: u128 = cos as u128;
    assert(gx * c <= 4_294_967_295 * 1_000_000_000) by (nonlinear_arith)
        requires
            gx <= 4_294_967_295,
            c <= 1_000_000_000,
    ;
    let dy: u128 = gy * 1_000_000_000;
    let dx: u128 = gx * c;
    assert(dy * dy <= 4_294_967_295_000_000_000 * 4_294_967_295_000_000_000) by (nonlinear_arith)
        requires
            dy <= 4_294_967_295_000_000_000,
    ;
    assert(dx * dx <= 4_294_967_295_000_000_000 * 4_294_967_295_000_000_000) by (nonlinear_arith)
        requires
            dx <= 4_294_967_295_000_000_000,
    ;
    let r: u64 = isqrt(dy * dy + dx * dx);
    assert(r < 8_000_000_000_000_000_000) by (nonlinear_arith)
        requires
            r * r <= 2 * (4_294_967_295_000_000_000 * 4_294_967_295_000_000_000),
    ;
    r
}

/// The distance on the plane is the root of the squares of both differences, rounded down, those along parallels
/// shortened by the cosine, whichever point comes first.
pub proof fn lemma_plane_distance(p: Point, q: Point, cos: u32)
    ensures
        ({
            let d = plane_distance(p, q, cos) as int;
            let x = (p.x - q.x) * cos;
            let y = (p.y - q.y) * 1_000_000_000;
            d * d <= x * x + y * y < (d + 1) * (d + 1)
        }),
        plane_distance(p, q, cos) == plane_distance(q, p, cos),
{
    let dy = gap(p.y, q.y) * 1_000_000_000;
    let dx = gap(p.x, q.x) * (cos as nat);
    let n = dy * dy + dx * dx;
    let r = lemma_isqrt_exists(n);
    let x = (p.x - q.x) * cos;
    let y = (p.y - q.y) * 1_000_000_000;
    assert(dx == x || dx == -x) by (nonlinear_arith)
        requires
            dx == gap(p.x, q.x) * (cos as nat),
            x == (p.x - q.x) * cos,
            gap(p.x, q.x) == p.x - q.x || gap(p.x, q.x) == q.x - p.x,
    ;
    assert(x * x == dx * dx) by (nonlinear_arith)
        requires
            dx == x || dx == -x,
    ;
    assert(y * y == dy * dy) by (nonlinear_arith)
        requires
            dy == y || dy == -y,
    ;
    assert(gap(q.x, p.x) == gap(p.x, q.x) && gap(q.y, p.y) == gap(p.y, q.y));
}

} // verus!
