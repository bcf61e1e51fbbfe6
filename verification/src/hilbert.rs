//! The Hilbert curve: an order in which places that are close on the map stay close.

use crate::geometry::Point;
use vstd::prelude::*;

verus! {

/// A power of two.
pub open spec fn side(k: nat) -> int
    decreases k,
{
    if k == 0 {
        1
    } else {
        2 * side((k - 1) as nat)
    }
}

/// Which of the four quarters of a square comes when: lower left, upper left, upper right, lower right.
pub open spec fn quarter(right: bool, upper: bool) -> int {
    if right {
        if upper {
            2
        } else {
            3
        }
    } else {
        if upper {
            1
        } else {
            0
        }
    }
}

/// A place within a quarter of side `s`, as the curve there sees it: in the lower quarters the curve is
/// turned over.
pub open spec fn turned(s: int, right: bool, upper: bool, x: int, y: int) -> (int, int) {
    if upper {
        (x, y)
    } else if right {
        (s - 1 - y, s - 1 - x)
    } else {
        (y, x)
    }
}

/// The position of a cell on the curve through a square of `side(k)` cells a side.
pub open spec fn curve(k: nat, x: int, y: int) -> int
    decreases k,
{
    if k == 0 {
        0
    } else {
        let s = side((k - 1) as nat);
        let right = x >= s;
        let upper = y >= s;
        let (tx, ty) = turned(
            s,
            right,
            upper,
            if right {
                x - s
            } else {
                x
            },
            if upper {
                y - s
            } else {
                y
            },
        );
        quarter(right, upper) * s * s + curve((k - 1) as nat, tx, ty)
    }
}

pub open spec fn inside(k: nat, x: int, y: int) -> bool {
    0 <= x < side(k) && 0 <= y < side(k)
}

proof fn lemma_side(k: nat)
    ensures
        side(k) >= 1,
    decreases k,
{
    if k > 0 {
        lemma_side((k - 1) as nat);
    }
}

proof fn lemma_side_bound(k: nat)
    requires
        k <= 31,
    ensures
        side(k) <= 0x8000_0000,
    decreases k,
{
    reveal_with_fuel(side, 33);
}

/// Positions are numbered from zero to the number of cells.
pub proof fn lemma_curve_range(k: nat, x: int, y: int)
    requires
        inside(k, x, y),
    ensures
        0 <= curve(k, x, y) < side(k) * side(k),
    decreases k,
{
    lemma_side(k);
    if k > 0 {
        let s = side((k - 1) as nat);
        let right = x >= s;
        let upper = y >= s;
        let (tx, ty) = part(k, x, y);
        lemma_curve_range((k - 1) as nat, tx, ty);
        let q = quarter(right, upper);
        let c = curve((k - 1) as nat, tx, ty);
        assert(0 <= q * s * s + c < (2 * s) * (2 * s)) by (nonlinear_arith)
            requires
                0 <= q <= 3,
                0 <= c < s * s,
        ;
    }
}

/// The place of a cell within its quarter.
spec fn part(k: nat, x: int, y: int) -> (int, int) {
    let s = side((k - 1) as nat);
    turned(
        s,
        x >= s,
        y >= s,
        if x >= s {
            x - s
        } else {
            x
        },
        if y >= s {
            y - s
        } else {
            y
        },
    )
}

/// The quarter of a cell follows from its position.
proof fn lemma_quarters(k: nat, x: int, y: int)
    requires
        k > 0,
        inside(k, x, y),
    ensures
        ({
            let s = side((k - 1) as nat);
            let q = quarter(x >= s, y >= s);
            let (tx, ty) = part(k, x, y);
            &&& inside((k - 1) as nat, tx, ty)
            &&& curve(k, x, y) == q * (s * s) + curve((k - 1) as nat, tx, ty)
            &&& 0 <= curve((k - 1) as nat, tx, ty) < s * s
            &&& q * (s * s) <= curve(k, x, y) < (q + 1) * (s * s)
        }),
{
    let s = side((k - 1) as nat);
    let q = quarter(x >= s, y >= s);
    let (tx, ty) = part(k, x, y);
    lemma_side((k - 1) as nat);
    lemma_curve_range((k - 1) as nat, tx, ty);
    let c = curve((k - 1) as nat, tx, ty);
    assert(q * s * s == q * (s * s)) by (nonlinear_arith);
    assert(q * (s * s) + c < (q + 1) * (s * s)) by (nonlinear_arith)
        requires
            c < s * s,
    ;
}

/// Equal quotients of positions mean equal quarters.
proof fn lemma_same_quarter(q1: int, q2: int, m: int, c1: int, c2: int)
    requires
        m > 0,
        0 <= c1 < m,
        0 <= c2 < m,
        q1 * m + c1 == q2 * m + c2,
    ensures
        q1 == q2,
        c1 == c2,
{
    if q1 < q2 {
        assert((q1 + 1) * m <= q2 * m) by (nonlinear_arith)
            requires
                q1 < q2,
                m > 0,
        ;
        assert((q1 + 1) * m == q1 * m + m) by (nonlinear_arith);
    } else if q2 < q1 {
        assert((q2 + 1) * m <= q1 * m) by (nonlinear_arith)
            requires
                q2 < q1,
                m > 0,
        ;
        assert((q2 + 1) * m == q2 * m + m) by (nonlinear_arith);
    }
}

/// Different cells have different positions.
pub proof fn lemma_curve_injective(k: nat, x1: int, y1: int, x2: int, y2: int)
    requires
        inside(k, x1, y1),
        inside(k, x2, y2),
        curve(k, x1, y1) == curve(k, x2, y2),
    ensures
        x1 == x2,
        y1 == y2,
    decreases k,
{
    if k > 0 {
        let s = side((k - 1) as nat);
        lemma_side((k - 1) as nat);
        lemma_quarters(k, x1, y1);
        lemma_quarters(k, x2, y2);
        let (ax, ay) = part(k, x1, y1);
        let (bx, by) = part(k, x2, y2);
        assert(s * s > 0) by (nonlinear_arith)
            requires
                s >= 1,
        ;
        lemma_same_quarter(
            quarter(x1 >= s, y1 >= s),
            quarter(x2 >= s, y2 >= s),
            s * s,
            curve((k - 1) as nat, ax, ay),
            curve((k - 1) as nat, bx, by),
        );
        lemma_curve_injective((k - 1) as nat, ax, ay, bx, by);
    }
}

/// The curve begins at the lower left and ends at the lower right.
pub proof fn lemma_curve_ends(k: nat)
    ensures
        curve(k, 0, 0) == 0,
        curve(k, side(k) - 1, 0) == side(k) * side(k) - 1,
    decreases k,
{
    if k > 0 {
        let s = side((k - 1) as nat);
        lemma_side((k - 1) as nat);
        lemma_curve_ends((k - 1) as nat);
        lemma_quarters(k, 0, 0);
        lemma_quarters(k, side(k) - 1, 0);
        assert(part(k, 0, 0) == (0int, 0int));
        assert(part(k, 2 * s - 1, 0) == (s - 1, 0int));
        assert(3 * (s * s) + (s * s - 1) == (2 * s) * (2 * s) - 1) by (nonlinear_arith);
    }
}

pub open spec fn apart(a: int, b: int) -> int {
    if a < b {
        b - a
    } else {
        a - b
    }
}

/// Cells that follow each other on the curve lie side by side.
#[verifier::spinoff_prover]
#[verifier::rlimit(50)]
pub proof fn lemma_curve_adjacent(k: nat, x1: int, y1: int, x2: int, y2: int)
    requires
        inside(k, x1, y1),
        inside(k, x2, y2),
        curve(k, x1, y1) + 1 == curve(k, x2, y2),
    ensures
        apart(x1, x2) + apart(y1, y2) == 1,
    decreases k,
{
    if k > 0 {
        let j = (k - 1) as nat;
        let s = side(j);
        let m = s * s;
        lemma_side(j);
        assert(m > 0) by (nonlinear_arith)
            requires
                s >= 1,
                m == s * s,
        ;
        lemma_quarters(k, x1, y1);
        lemma_quarters(k, x2, y2);
        let (ax, ay) = part(k, x1, y1);
        let (bx, by) = part(k, x2, y2);
        let q1 = quarter(x1 >= s, y1 >= s);
        let q2 = quarter(x2 >= s, y2 >= s);
        let c1 = curve(j, ax, ay);
        let c2 = curve(j, bx, by);
        assert(q1 * m + c1 + 1 == q2 * m + c2);
        if c1 + 1 < m {
            lemma_same_quarter(q1, q2, m, c1 + 1, c2);
            lemma_curve_adjacent(j, ax, ay, bx, by);
        } else {
            assert(q1 * m + m == (q1 + 1) * m) by (nonlinear_arith);
            lemma_same_quarter(q1 + 1, q2, m, 0, c2);
            lemma_curve_ends(j);
            lemma_curve_injective(j, ax, ay, s - 1, 0);
            lemma_curve_injective(j, bx, by, 0, 0);
        }
    } else {
        lemma_curve_range(k, x1, y1);
        lemma_curve_range(k, x2, y2);
    }
}

/// The curve comes to a cell at every position.
pub proof fn lemma_curve_onto(k: nat, d: int) -> (cell: (int, int))
    requires
        0 <= d < side(k) * side(k),
    ensures
        inside(k, cell.0, cell.1),
        curve(k, cell.0, cell.1) == d,
    decreases k,
{
    if k == 0 {
        assert(side(0) * side(0) == 1) by (nonlinear_arith)
            requires
                side(0) == 1,
        ;
        (0, 0)
    } else {
        let j = (k - 1) as nat;
        let s = side(j);
        let m = s * s;
        lemma_side(j);
        assert(m > 0) by (nonlinear_arith)
            requires
                s >= 1,
                m == s * s,
        ;
        assert(side(k) * side(k) == 4 * m) by (nonlinear_arith)
            requires
                side(k) == 2 * s,
                m == s * s,
        ;
        let q = d / m;
        let c = d % m;
        assert(d == q * m + c && 0 <= c < m && 0 <= q <= 3) by (nonlinear_arith)
            requires
                m > 0,
                0 <= d < 4 * m,
                q == d / m,
                c == d % m,
        ;
        let (tx, ty) = lemma_curve_onto(j, c);
        let cell = if q == 0 {
            (ty, tx)
        } else if q == 1 {
            (tx, ty + s)
        } else if q == 2 {
            (tx + s, ty + s)
        } else {
            (s + (s - 1 - ty), s - 1 - tx)
        };
        lemma_quarters(k, cell.0, cell.1);
        assert(part(k, cell.0, cell.1) == (tx, ty));
        assert(quarter(cell.0 >= s, cell.1 >= s) == q);
        assert(curve(k, cell.0, cell.1) == q * m + c);
        cell
    }
}

/// A curve through cells half as large refines the curve: it goes through the four parts of a cell one
/// after another, cell by cell.
pub proof fn lemma_curve_refines(k: nat, x: int, y: int)
    requires
        inside(k + 1, x, y),
    ensures
        inside(k, x / 2, y / 2),
        curve(k + 1, x, y) / 4 == curve(k, x / 2, y / 2),
    decreases k,
{
    lemma_side(k);
    lemma_quarters(k + 1, x, y);
    if k == 0 {
        assert(side(1) == 2) by {
            reveal_with_fuel(side, 2);
        }
    } else {
        let j = (k - 1) as nat;
        let s = side(j);
        let big = side(k);
        lemma_side(j);
        lemma_quarters(k, x / 2, y / 2);
        let (tx, ty) = part(k + 1, x, y);
        assert(big == 2 * s);
        assert((x >= big) == (x / 2 >= s) && (y >= big) == (y / 2 >= s));
        assert(part(k, x / 2, y / 2) == (tx / 2, ty / 2));
        lemma_curve_refines(j, tx, ty);
        let q = quarter(x >= big, y >= big);
        let c = curve(k, tx, ty);
        assert((q * (big * big) + c) / 4 == q * (s * s) + c / 4) by (nonlinear_arith)
            requires
                big == 2 * s,
        ;
    }
}

/// The position of a cell on the curve through a square of `2^order` cells a side.
pub fn xy_to_hilbert(order: u32, x: u32, y: u32) -> (d: u64)
    requires
        order <= 31,
        inside(order as nat, x as int, y as int),
    ensures
        d == curve(order as nat, x as int, y as int),
{
    let mut n: u64 = 1;
    let mut i: u32 = 0;
    while i < order
        invariant
            i <= order <= 31,
            n == side(i as nat),
        decreases order - i,
    {
        proof {
            lemma_side_bound(i as nat);
        }
        n = 2 * n;
        i = i + 1;
    }
    let mut d: u64 = 0;
    let mut px: u64 = x as u64;
    let mut py: u64 = y as u64;
    let ghost mut k: nat = order as nat;
    while n > 1
        invariant
            order <= 31,
            k <= order,
            n == side(k),
            inside(k, px as int, py as int),
            inside(order as nat, x as int, y as int),
            d + curve(k, px as int, py as int) == curve(order as nat, x as int, y as int),
        decreases n,
    {
        proof {
            lemma_side_bound(k);
            lemma_side_bound(order as nat);
            lemma_side(order as nat);
            assert(k > 0);
            lemma_side((k - 1) as nat);
            lemma_quarters(k, px as int, py as int);
            lemma_curve_range(order as nat, x as int, y as int);
            lemma_curve_range(k, px as int, py as int);
        }
        let s: u64 = n / 2;
        let right = px >= s;
        let upper = py >= s;
        let qx: u64 = if right {
            px - s
        } else {
            px
        };
        let qy: u64 = if upper {
            py - s
        } else {
            py
        };
        let q: u64 = if right {
            if upper {
                2
            } else {
                3
            }
        } else {
            if upper {
                1
            } else {
                0
            }
        };
        proof {
            let t = side(order as nat);
            assert(t * t <= 0x4000_0000_0000_0000) by (nonlinear_arith)
                requires
                    0 <= t <= 0x8000_0000,
            ;
            assert(s * s <= 0x4000_0000_0000_0000) by (nonlinear_arith)
                requires
                    s <= 0x8000_0000,
            ;
            assert(q * (s * s) + curve((k - 1) as nat, part(k, px as int, py as int).0, part(
                k,
                px as int,
                py as int,
            ).1) == curve(k, px as int, py as int));
        }
        let cells: u64 = s * s;
        d = d + q * cells;
        if upper {
            px = qx;
            py = qy;
        } else if right {
            px = s - 1 - qy;
            py = s - 1 - qx;
        } else {
            px = qy;
            py = qx;
        }
        n = s;
        proof {
            k = (k - 1) as nat;
        }
    }
    proof {
        if k > 0 {
            lemma_side((k - 1) as nat);
        }
    }
    d
}

/// A coordinate on a grid of 65536 cells.
pub open spec fn grid(v: int, half: int) -> int {
    let g = (v + half) * 65536 / (2 * half);
    if g < 0 {
        0
    } else if g > 65535 {
        65535
    } else {
        g
    }
}

fn grid_of(v: i32, half: i64) -> (r: u32)
    requires
        0 < half <= 1_800_000_000,
    ensures
        r == grid(v as int, half as int),
        r <= 65535,
{
    let a: i64 = (v as i64) + half;
    if a < 0 {
        proof {
            assert((a * 65536) / (2 * half) < 0) by (nonlinear_arith)
                requires
                    a < 0,
                    half > 0,
            ;
        }
        return 0;
    }
    let g: i64 = (a * 65536) / (2 * half);
    assert(g >= 0) by (nonlinear_arith)
        requires
            g == (a * 65536) / (2 * half),
            a >= 0,
            half > 0,
    ;
    if g > 65535 {
        65535
    } else {
        g as u32
    }
}

/// The position of a place on the curve through a grid of 65536 by 65536 cells over the whole map.
pub open spec fn place_on_curve(p: Point) -> int {
    curve(16, grid(p.x as int, 1_800_000_000), grid(p.y as int, 900_000_000))
}

/// The position of a place on the curve.
pub fn hilbert_index(p: Point) -> (d: u64)
    ensures
        d == place_on_curve(p),
{
    let x: u32 = grid_of(p.x, 1_800_000_000);
    let y: u32 = grid_of(p.y, 900_000_000);
    proof {
        reveal_with_fuel(side, 17);
    }
    xy_to_hilbert(16, x, y)
}

/// The sum of the first coordinates.
pub open spec fn sum_x(points: Seq<Point>) -> int
    decreases points.len(),
{
    if points.len() == 0 {
        0
    } else {
        sum_x(points.drop_last()) + points.last().x
    }
}

/// The sum of the second coordinates.
pub open spec fn sum_y(points: Seq<Point>) -> int
    decreases points.len(),
{
    if points.len() == 0 {
        0
    } else {
        sum_y(points.drop_last()) + points.last().y
    }
}

/// The mean of places, rounded down, or the origin if there are none.
pub open spec fn centroid(points: Seq<Point>) -> Point {
    if points.len() == 0 {
        Point { x: 0, y: 0 }
    } else {
        Point {
            x: (sum_x(points) / (points.len() as int)) as i32,
            y: (sum_y(points) / (points.len() as int)) as i32,
        }
    }
}

fn mean(sum: i128, n: i128) -> (r: i32)
    requires
        n > 0,
        n <= 0xffff_ffff_ffff_ffff,
        -0x8000_0000 * n <= sum <= 0x7fff_ffff * n,
    ensures
        r == sum as int / n as int,
{
    let lift: i128 = 0x8000_0000 * n;
    let q: i128 = (sum + lift) / n;
    proof {
        let a = sum as int;
        let m = n as int;
        vstd::arithmetic::div_mod::lemma_hoist_over_denominator(a, 0x8000_0000, n as nat);
        assert((a + 0x8000_0000 * m) / m == a / m + 0x8000_0000);
        assert(0 <= (sum + lift) / (n as int) < 0x1_0000_0000) by (nonlinear_arith)
            requires
                0 <= sum + lift <= 0xffff_ffff * n,
                n > 0,
        ;
    }
    (q - 0x8000_0000) as i32
}

/// The mean of places.
pub fn compute_centroid(points: &Vec<Point>) -> (r: Point)
    ensures
        r == centroid(points@),
{
    if points.len() == 0 {
        return Point { x: 0, y: 0 };
    }
    let mut sx: i128 = 0;
    let mut sy: i128 = 0;
    let mut i: usize = 0;
    assert(points@.take(0) =~= Seq::<Point>::empty());
    while i < points.len()
        invariant
            i <= points@.len(),
            sx == sum_x(points@.take(i as int)),
            sy == sum_y(points@.take(i as int)),
            -0x8000_0000 * i <= sx <= 0x7fff_ffff * i,
            -0x8000_0000 * i <= sy <= 0x7fff_ffff * i,
        decreases points@.len() - i,
    {
        assert(points@.take(i + 1).drop_last() =~= points@.take(i as int));
        sx = sx + points[i].x as i128;
        sy = sy + points[i].y as i128;
        i = i + 1;
    }
    assert(points@.take(i as int) =~= points@);
    let n: i128 = points.len() as i128;
    Point { x: mean(sx, n), y: mean(sy, n) }
}

/// The position on the curve of the mean of stops.
pub fn route_hilbert_index(stops: &Vec<Point>) -> (d: u64)
    ensures
        d == place_on_curve(centroid(stops@)),
{
    hilbert_index(compute_centroid(stops))
}

// What places on the curve are for.

/// The cell of a coordinate is the one in which it lies, and coordinates in order have cells in order.
pub proof fn lemma_grid(v: int, u: int, half: int)
    requires
        half > 0,
        -half <= v < half,
        v <= u,
    ensures
        0 <= grid(v, half) <= 65535,
        grid(v, half) * (2 * half) <= (v + half) * 65536 < (grid(v, half) + 1) * (2 * half),
        grid(v, half) <= grid(u, half),
{
    let a = (v + half) * 65536;
    let b = (u + half) * 65536;
    let d = 2 * half;
    let g = a / d;
    let h = b / d;
    assert(g * d <= a < (g + 1) * d && 0 <= g <= 65535) by (nonlinear_arith)
        requires
            g == a / d,
            0 <= a < d * 65536,
            d > 0,
    ;
    assert(g <= h) by (nonlinear_arith)
        requires
            g == a / d,
            h == b / d,
            a <= b,
            d > 0,
    ;
}

proof fn lemma_sums_within(points: Seq<Point>, b: crate::geometry::BBox)
    requires
        forall|i: int| 0 <= i < points.len() ==> b.holds(#[trigger] points[i]),
    ensures
        b.min_x * points.len() <= sum_x(points) <= b.max_x * points.len(),
        b.min_y * points.len() <= sum_y(points) <= b.max_y * points.len(),
    decreases points.len(),
{
    if points.len() > 0 {
        let p = points.drop_last();
        assert forall|i: int| 0 <= i < p.len() implies b.holds(#[trigger] p[i]) by {
            assert(p[i] == points[i]);
        }
        lemma_sums_within(p, b);
        assert(b.holds(points[points.len() - 1]));
        let n = p.len() as int;
        assert(b.min_x * (n + 1) == b.min_x * n + b.min_x) by (nonlinear_arith);
        assert(b.max_x * (n + 1) == b.max_x * n + b.max_x) by (nonlinear_arith);
        assert(b.min_y * (n + 1) == b.min_y * n + b.min_y) by (nonlinear_arith);
        assert(b.max_y * (n + 1) == b.max_y * n + b.max_y) by (nonlinear_arith);
    }
}

/// The mean of places lies in every box that holds them all. As often as there are places, it makes up their
/// sum, up to rounding.
pub proof fn lemma_centroid(points: Seq<Point>, b: crate::geometry::BBox)
    requires
        points.len() > 0,
        forall|i: int| 0 <= i < points.len() ==> b.holds(#[trigger] points[i]),
    ensures
        b.holds(centroid(points)),
        centroid(points).x * points.len() <= points.fold_left(0int, |sum: int, p: Point| sum + p.x) < (
        centroid(points).x + 1) * points.len(),
        centroid(points).y * points.len() <= points.fold_left(0int, |sum: int, p: Point| sum + p.y) < (
        centroid(points).y + 1) * points.len(),
{
    let n = points.len() as int;
    let sx = sum_x(points);
    let sy = sum_y(points);
    lemma_sums_within(points, b);
    lemma_sums_fold(points);
    lemma_mean_within(sx, n, b.min_x as int, b.max_x as int);
    lemma_mean_within(sy, n, b.min_y as int, b.max_y as int);
}

proof fn lemma_mean_within(sum: int, n: int, low: int, high: int)
    requires
        n > 0,
        low * n <= sum <= high * n,
    ensures
        low <= sum / n <= high,
        (sum / n) * n <= sum < (sum / n + 1) * n,
{
    let q = sum / n;
    assert(q * n <= sum < (q + 1) * n) by (nonlinear_arith)
        requires
            q == sum / n,
            n > 0,
    ;
    assert(low <= q <= high) by (nonlinear_arith)
        requires
            q * n <= sum < (q + 1) * n,
            low * n <= sum <= high * n,
            n > 0,
    ;
}

proof fn lemma_sums_fold(points: Seq<Point>)
    ensures
        sum_x(points) == points.fold_left(0int, |sum: int, p: Point| sum + p.x),
        sum_y(points) == points.fold_left(0int, |sum: int, p: Point| sum + p.y),
    decreases points.len(),
{
    if points.len() > 0 {
        lemma_sums_fold(points.drop_last());
    }
}

} // verus!
