//! The course of edges: projecting points onto it, and cutting pieces out of it.

use crate::geometry::Point;
use crate::graph::{Edge, EdgeIndex, EdgePL, Graph, NodePL};
use crate::router::types::{EdgeHop, WHOLE_EDGE};
use vstd::prelude::*;
use vstd::slice::slice_to_vec;

verus! {

/// The course of an edge, in the direction in which it is used. An edge without one runs straight.
pub open spec fn edge_points(g: Graph<NodePL, EdgePL>, e: int) -> Seq<Point> {
    let edge = g.edges@[e];
    if edge.payload.geometry@.len() < 2 {
        seq![
            g.nodes@[edge.from as int].payload.point,
            g.nodes@[edge.to as int].payload.point,
        ]
    } else if edge.payload.is_reverse {
        edge.payload.geometry@.reverse()
    } else {
        edge.payload.geometry@
    }
}

/// The course of an edge runs from where the edge begins to where it ends, if the edge has no course of its
/// own, or one that does so, turned round if it is that of an edge seen from its other end.
pub proof fn lemma_course_of_edge(g: Graph<NodePL, EdgePL>, e: int)
    requires
        0 <= e < g.edges@.len(),
        g.edges@[e].payload.geometry@.len() >= 2 ==> {
            let c = g.edges@[e].payload.geometry@;
            let a = g.nodes@[g.edges@[e].from as int].payload.point;
            let b = g.nodes@[g.edges@[e].to as int].payload.point;
            if g.edges@[e].payload.is_reverse {
                c[0] == b && c[c.len() - 1] == a
            } else {
                c[0] == a && c[c.len() - 1] == b
            }
        },
    ensures
        edge_points(g, e).len() >= 2,
        edge_points(g, e)[0] == g.nodes@[g.edges@[e].from as int].payload.point,
        edge_points(g, e)[edge_points(g, e).len() - 1] == g.nodes@[g.edges@[e].to as int].payload.point,
        forall|p: Point| #[trigger]
            g.edges@[e].payload.geometry@.contains(p) && g.edges@[e].payload.geometry@.len() >= 2
                ==> edge_points(g, e).contains(p),
        g.edges@[e].payload.geometry@.len() >= 2 ==> edge_points(g, e).len()
            == g.edges@[e].payload.geometry@.len(),
{
    let c = g.edges@[e].payload.geometry@;
    assert forall|p: Point| #[trigger] c.contains(p) && c.len() >= 2 implies edge_points(
        g,
        e,
    ).contains(p) by {
        let i = choose|i: int| 0 <= i < c.len() && c[i] == p;
        assert(c.reverse()[c.len() - 1 - i] == p);
    }
}

/// The course of an edge, in the direction in which it is used.
pub fn oriented_edge_points(graph: &Graph<NodePL, EdgePL>, edge_idx: EdgeIndex) -> (r: Vec<Point>)
    requires
        graph.wf(),
        edge_idx < graph.edges@.len(),
    ensures
        r@ == edge_points(*graph, edge_idx as int),
        r@.len() >= 2,
{
    let edge = &graph.edges[edge_idx];
    assert(graph.edges@[edge_idx as int].from < graph.nodes@.len());
    let n: usize = edge.payload.geometry.len();
    if n < 2 {
        let mut r: Vec<Point> = Vec::new();
        r.push(graph.nodes[edge.from].payload.point);
        r.push(graph.nodes[edge.to].payload.point);
        assert(r@ =~= edge_points(*graph, edge_idx as int));
        return r;
    }
    if edge.payload.is_reverse {
        let mut r: Vec<Point> = Vec::new();
        let mut i: usize = n;
        while i > 0
            invariant
                i <= n,
                n == edge.payload.geometry@.len(),
                r@.len() == n - i,
                forall|j: int|
                    #![trigger r@[j]]
                    0 <= j < n - i ==> r@[j] == edge.payload.geometry@[n - 1 - j],
            decreases i,
        {
            i = i - 1;
            r.push(edge.payload.geometry[i]);
        }
        assert(r@ =~= edge.payload.geometry@.reverse());
        return r;
    }
    slice_to_vec(edge.payload.geometry.as_slice())
}

/// A coordinate after a part of the way from one value to another, `WHOLE_EDGE` being all of it, rounded
/// to the nearest.
pub open spec fn between(a: int, b: int, t: int) -> int {
    a + ((b - a) * t + 500_000_000) / 1_000_000_000
}

/// The point after a part of the way from one point to another.
pub open spec fn point_between(a: Point, b: Point, t: int) -> Point {
    Point {
        x: between(a.x as int, b.x as int, t) as i32,
        y: between(a.y as int, b.y as int, t) as i32,
    }
}

proof fn lemma_between(a: int, b: int, t: int)
    requires
        0 <= t <= 1_000_000_000,
    ensures
        a <= b ==> a <= between(a, b, t) <= b,
        b <= a ==> b <= between(a, b, t) <= a,
        t == 0 ==> between(a, b, t) == a,
        t == 1_000_000_000 ==> between(a, b, t) == b,
{
    let d = b - a;
    assert(d >= 0 ==> 0 <= d * t <= d * 1_000_000_000) by (nonlinear_arith)
        requires
            0 <= t <= 1_000_000_000,
    ;
    assert(d <= 0 ==> d * 1_000_000_000 <= d * t <= 0) by (nonlinear_arith)
        requires
            0 <= t <= 1_000_000_000,
    ;
    assert(t == 0 ==> d * t == 0) by (nonlinear_arith);
    assert(t == 1_000_000_000 ==> d * t == d * 1_000_000_000);
}

fn coordinate_between(a: i32, b: i32, t: u32) -> (r: i32)
    requires
        t <= WHOLE_EDGE,
    ensures
        r == between(a as int, b as int, t as int),
{
    proof {
        lemma_between(a as int, b as int, t as int);
    }
    let d: i64 = b as i64 - a as i64;
    let w: i128 = (d as i128) * (t as i128);
    assert(w == (b - a) * t);
    assert(-5_000_000_000_000_000_000 <= w <= 5_000_000_000_000_000_000) by (nonlinear_arith)
        requires
            w == (b - a) * t,
            -0x8000_0000 <= a <= 0x7fff_ffff,
            -0x8000_0000 <= b <= 0x7fff_ffff,
            0 <= t <= 1_000_000_000,
    ;
    let lift: i128 = 5_000_000_000;
    let q: i128 = (w + 500_000_000 + lift * 1_000_000_000) / 1_000_000_000;
    assert(q == (w + 500_000_000) / 1_000_000_000 + lift);
    (a as i128 + (q - lift)) as i32
}

/// The point after a part of the way from one point to another.
pub fn point_on_segment(a: Point, b: Point, t: u32) -> (r: Point)
    requires
        t <= WHOLE_EDGE,
    ensures
        r == point_between(a, b, t as int),
{
    Point { x: coordinate_between(a.x, b.x, t), y: coordinate_between(a.y, b.y, t) }
}

/// Where a point falls onto a segment: the part of the way at which the foot of its perpendicular lies,
/// or an end. Distances along parallels are shortened by a factor, given in ten-thousandths.
pub open spec fn foot(a: Point, b: Point, p: Point, scale: int) -> int {
    let dx = (b.x - a.x) * scale;
    let dy = (b.y - a.y) * 10_000;
    let px = (p.x - a.x) * scale;
    let py = (p.y - a.y) * 10_000;
    let square = dx * dx + dy * dy;
    let dot = px * dx + py * dy;
    if square <= 2_220_446 || dot <= 0 {
        0
    } else if dot >= square {
        1_000_000_000
    } else {
        dot * 1_000_000_000 / square
    }
}

/// The square of the distance from a point to the place after `t` billionths of the way along a
/// segment, along parallels shortened by `scale` ten-thousandths, in units of `1e-20` of a degree.
pub open spec fn off_by(a: Point, b: Point, p: Point, scale: int, t: int) -> int {
    let x = (1_000_000_000 * (p.x - a.x) - (b.x - a.x) * t) * scale;
    let y = (1_000_000_000 * (p.y - a.y) - (b.y - a.y) * t) * 10_000;
    x * x + y * y
}

/// No place on a segment is nearer to a point than the one it falls onto: none before it, and none
/// behind the next billionth of the way. If the segment is too short to be told from a point, that
/// place is its start.
pub proof fn lemma_foot_is_nearest(a: Point, b: Point, p: Point, scale: int, t: int)
    requires
        0 <= t <= 1_000_000_000,
    ensures
        0 <= foot(a, b, p, scale) <= 1_000_000_000,
        ((b.x - a.x) * scale) * ((b.x - a.x) * scale) + ((b.y - a.y) * 10_000) * ((b.y - a.y)
            * 10_000) <= 2_220_446 ==> foot(a, b, p, scale) == 0,
        ((b.x - a.x) * scale) * ((b.x - a.x) * scale) + ((b.y - a.y) * 10_000) * ((b.y - a.y)
            * 10_000) > 2_220_446 ==> {
            let f = foot(a, b, p, scale);
            &&& t <= f ==> off_by(a, b, p, scale, f) <= off_by(a, b, p, scale, t)
            &&& t > f ==> off_by(a, b, p, scale, f + 1) <= off_by(a, b, p, scale, t)
        },
{
    let dx = (b.x - a.x) * scale;
    let dy = (b.y - a.y) * 10_000;
    let px = (p.x - a.x) * scale;
    let py = (p.y - a.y) * 10_000;
    let square = dx * dx + dy * dy;
    let dot = px * dx + py * dy;
    let f = foot(a, b, p, scale);
    assert(dx * dx >= 0 && dy * dy >= 0) by (nonlinear_arith);
    if square > 2_220_446 {
        if 0 < dot < square {
            let q = dot * 1_000_000_000;
            assert(square * f <= q < square * f + square && 0 <= f < 1_000_000_000)
                by (nonlinear_arith)
                requires
                    q == dot * 1_000_000_000,
                    0 < dot < square,
                    f == q / square,
            ;
        }
        lemma_off_by(a, b, p, scale, f, t);
        lemma_off_by(a, b, p, scale, f + 1, t);
        if t <= f {
            let u = f - t;
            assert(f == 0 || square * f <= dot * 1_000_000_000);
            assert(square * (f + t) <= 2_000_000_000 * dot || u == 0) by (nonlinear_arith)
                requires
                    0 <= t <= f <= 1_000_000_000,
                    square > 0,
                    u == f - t,
                    f == 0 || square * f <= dot * 1_000_000_000,
            ;
            assert(u * (square * (f + t)) <= u * (2_000_000_000 * dot)) by (nonlinear_arith)
                requires
                    u >= 0,
                    square * (f + t) <= 2_000_000_000 * dot || u == 0,
            ;
        } else {
            let u = t - (f + 1);
            assert(dot * 1_000_000_000 <= square * (f + 1)) by {
                if dot <= 0 {
                    assert(f == 0);
                } else {
                    assert(square * (f + 1) == square * f + square) by (nonlinear_arith);
                }
            }
            assert(square * (f + 1 + t) >= 2_000_000_000 * dot) by (nonlinear_arith)
                requires
                    f < t <= 1_000_000_000,
                    square > 0,
                    dot * 1_000_000_000 <= square * (f + 1),
            ;
            assert(u * (square * (f + 1 + t)) >= u * (2_000_000_000 * dot)) by (nonlinear_arith)
                requires
                    u >= 0,
                    square * (f + 1 + t) >= 2_000_000_000 * dot,
            ;
            assert((f + 1 - t) * (square * (f + 1 + t)) == -(u * (square * (f + 1 + t))))
                by (nonlinear_arith)
                requires
                    u == t - (f + 1),
            ;
            assert((f + 1 - t) * (2_000_000_000 * dot) == -(u * (2_000_000_000 * dot)))
                by (nonlinear_arith)
                requires
                    u == t - (f + 1),
            ;
        }
    }
}

/// How two places of a segment compare.
proof fn lemma_off_by(a: Point, b: Point, p: Point, scale: int, s: int, t: int)
    ensures
        ({
            let dx = (b.x - a.x) * scale;
            let dy = (b.y - a.y) * 10_000;
            let px = (p.x - a.x) * scale;
            let py = (p.y - a.y) * 10_000;
            off_by(a, b, p, scale, s) - off_by(a, b, p, scale, t) == (s - t) * ((dx * dx + dy * dy)
                * (s + t)) - (s - t) * (2_000_000_000 * (px * dx + py * dy))
        }),
{
    let ax = p.x - a.x;
    let ay = p.y - a.y;
    let bx = b.x - a.x;
    let by = b.y - a.y;
    let n = 1_000_000_000int;
    let dx = bx * scale;
    let dy = by * 10_000;
    let px = ax * scale;
    let py = ay * 10_000;
    assert((n * ax - bx * s) * scale == n * px - dx * s) by (nonlinear_arith)
        requires
            dx == bx * scale,
            px == ax * scale,
    ;
    assert((n * ax - bx * t) * scale == n * px - dx * t) by (nonlinear_arith)
        requires
            dx == bx * scale,
            px == ax * scale,
    ;
    assert((n * ay - by * s) * 10_000 == n * py - dy * s) by (nonlinear_arith)
        requires
            dy == by * 10_000,
            py == ay * 10_000,
    ;
    assert((n * ay - by * t) * 10_000 == n * py - dy * t) by (nonlinear_arith)
        requires
            dy == by * 10_000,
            py == ay * 10_000,
    ;
    lemma_squares_differ(n, px, dx, s, t);
    lemma_squares_differ(n, py, dy, s, t);
    assert((s - t) * ((dx * dx + dy * dy) * (s + t)) == (s - t) * ((dx * dx) * (s + t)) + (s - t)
        * ((dy * dy) * (s + t))) by (nonlinear_arith);
    assert((s - t) * (2 * n * (px * dx + py * dy)) == (s - t) * (2 * n * (px * dx)) + (s - t) * (2
        * n * (py * dy))) by (nonlinear_arith);
}

proof fn lemma_squares_differ(n: int, p: int, d: int, s: int, t: int)
    ensures
        (n * p - d * s) * (n * p - d * s) - (n * p - d * t) * (n * p - d * t) == (s - t) * ((d * d)
            * (s + t)) - (s - t) * (2 * n * (p * d)),
{
    let w = n * p;
    let x = d * s;
    let y = d * t;
    assert((w - x) * (w - x) == w * w - 2 * (w * x) + x * x) by (nonlinear_arith);
    assert((w - y) * (w - y) == w * w - 2 * (w * y) + y * y) by (nonlinear_arith);
    assert(x * x == (d * d) * (s * s)) by (nonlinear_arith)
        requires
            x == d * s,
    ;
    assert(y * y == (d * d) * (t * t)) by (nonlinear_arith)
        requires
            y == d * t,
    ;
    assert(w * x == (n * (p * d)) * s) by (nonlinear_arith)
        requires
            w == n * p,
            x == d * s,
    ;
    assert(w * y == (n * (p * d)) * t) by (nonlinear_arith)
        requires
            w == n * p,
            y == d * t,
    ;
    let e = d * d;
    let m = n * (p * d);
    assert((s - t) * (e * (s + t)) == e * (s * s) - e * (t * t)) by (nonlinear_arith);
    assert(2 * n * (p * d) == 2 * m) by (nonlinear_arith)
        requires
            m == n * (p * d),
    ;
    assert((s - t) * (2 * m) == 2 * (m * s) - 2 * (m * t)) by (nonlinear_arith);
}

/// A point that lies on a segment falls onto itself.
pub proof fn lemma_foot_of_place(a: Point, b: Point, p: Point, scale: int, t: int)
    requires
        0 <= t <= 1_000_000_000,
        1_000_000_000 * (p.x - a.x) == (b.x - a.x) * t,
        1_000_000_000 * (p.y - a.y) == (b.y - a.y) * t,
        ((b.x - a.x) * scale) * ((b.x - a.x) * scale) + ((b.y - a.y) * 10_000) * ((b.y - a.y)
            * 10_000) > 2_220_446,
    ensures
        foot(a, b, p, scale) == t,
{
    let dx = (b.x - a.x) * scale;
    let dy = (b.y - a.y) * 10_000;
    let px = (p.x - a.x) * scale;
    let py = (p.y - a.y) * 10_000;
    let square = dx * dx + dy * dy;
    let dot = px * dx + py * dy;
    let bx = b.x - a.x;
    let ax = p.x - a.x;
    assert(1_000_000_000 * px == dx * t) by (nonlinear_arith)
        requires
            1_000_000_000 * ax == bx * t,
            px == ax * scale,
            dx == bx * scale,
    ;
    assert(1_000_000_000 * (px * dx) == t * (dx * dx)) by (nonlinear_arith)
        requires
            1_000_000_000 * px == dx * t,
    ;
    assert(1_000_000_000 * py == dy * t) by (nonlinear_arith)
        requires
            1_000_000_000 * (p.y - a.y) == (b.y - a.y) * t,
            py == (p.y - a.y) * 10_000,
            dy == (b.y - a.y) * 10_000,
    ;
    assert(1_000_000_000 * (py * dy) == t * (dy * dy)) by (nonlinear_arith)
        requires
            1_000_000_000 * py == dy * t,
    ;
    assert(dot * 1_000_000_000 == square * t) by (nonlinear_arith)
        requires
            1_000_000_000 * (px * dx) == t * (dx * dx),
            1_000_000_000 * (py * dy) == t * (dy * dy),
            dot == px * dx + py * dy,
            square == dx * dx + dy * dy,
    ;
    assert(dot <= 0 ==> t == 0) by (nonlinear_arith)
        requires
            dot * 1_000_000_000 == square * t,
            square > 0,
            t >= 0,
    ;
    assert(dot >= square ==> t == 1_000_000_000) by (nonlinear_arith)
        requires
            dot * 1_000_000_000 == square * t,
            square > 0,
            t <= 1_000_000_000,
    ;
    if 0 < dot < square {
        vstd::arithmetic::div_mod::lemma_fundamental_div_mod_converse(
            dot * 1_000_000_000,
            square,
            t,
            0,
        );
    }
}

/// The point after a part of the way is the one nearest to it: it is off by at most half a unit in each
/// coordinate. No way leads back to where it began, and the whole way to its end.
pub proof fn lemma_point_between(a: Point, b: Point, t: int)
    requires
        0 <= t <= 1_000_000_000,
    ensures
        -1_000_000_000 <= 2 * (1_000_000_000 * (point_between(a, b, t).x - a.x) - (b.x - a.x) * t)
            <= 1_000_000_000,
        -1_000_000_000 <= 2 * (1_000_000_000 * (point_between(a, b, t).y - a.y) - (b.y - a.y) * t)
            <= 1_000_000_000,
        t == 0 ==> point_between(a, b, t) == a,
        t == 1_000_000_000 ==> point_between(a, b, t) == b,
{
    lemma_between(a.x as int, b.x as int, t);
    lemma_between(a.y as int, b.y as int, t);
}

fn product(a: i128, b: i128) -> (r: i128)
    requires
        -43_000_000_000_000 <= a <= 43_000_000_000_000,
        -43_000_000_000_000 <= b <= 43_000_000_000_000,
    ensures
        r == a * b,
        -1_849_000_000_000_000_000_000_000_000 <= r <= 1_849_000_000_000_000_000_000_000_000,
{
    assert(-1_849_000_000_000_000_000_000_000_000 <= a * b
        <= 1_849_000_000_000_000_000_000_000_000) by (nonlinear_arith)
        requires
            -43_000_000_000_000 <= a <= 43_000_000_000_000,
            -43_000_000_000_000 <= b <= 43_000_000_000_000,
    ;
    a * b
}

fn scaled(a: i32, b: i32, scale: u32) -> (r: i128)
    requires
        scale <= 10_000,
    ensures
        r == (b - a) * scale,
        -43_000_000_000_000 <= r <= 43_000_000_000_000,
{
    let d: i128 = b as i128 - a as i128;
    assert(-43_000_000_000_000 <= d * scale <= 43_000_000_000_000) by (nonlinear_arith)
        requires
            -4_294_967_295 <= d <= 4_294_967_295,
            0 <= scale <= 10_000,
    ;
    d * (scale as i128)
}

/// Where a point falls onto a segment.
pub fn foot_on_segment(a: Point, b: Point, p: Point, lon_scale: u32) -> (t: u32)
    requires
        lon_scale <= 10_000,
    ensures
        t == foot(a, b, p, lon_scale as int),
        t <= WHOLE_EDGE,
{
    let dx: i128 = scaled(a.x, b.x, lon_scale);
    let dy: i128 = scaled(a.y, b.y, 10_000);
    let px: i128 = scaled(a.x, p.x, lon_scale);
    let py: i128 = scaled(a.y, p.y, 10_000);
    let square: i128 = product(dx, dx) + product(dy, dy);
    let dot: i128 = product(px, dx) + product(py, dy);
    if square <= 2_220_446 || dot <= 0 {
        0
    } else if dot >= square {
        WHOLE_EDGE
    } else {
        assert(0 <= dot * 1_000_000_000 / (square as int) < 1_000_000_000) by (nonlinear_arith)
            requires
                0 < dot < square,
        ;
        ((dot * 1_000_000_000) / square) as u32
    }
}

/// A place on a segment.
#[derive(Debug, Clone, Copy, PartialEq, Eq)]
pub struct Projection {
    pub point: Point,
    /// The part of the segment before the place.
    pub part: u32,
}

/// Where a point falls onto each segment of a course.
pub fn project_onto_segments(points: &Vec<Point>, p: Point, lon_scale: u32) -> (r: Vec<Projection>)
    requires
        lon_scale <= 10_000,
        points@.len() >= 2,
    ensures
        r@.len() == points@.len() - 1,
        forall|i: int|
            #![trigger r@[i]]
            0 <= i < r@.len() ==> r@[i].part == foot(
                points@[i],
                points@[i + 1],
                p,
                lon_scale as int,
            ) && r@[i].point == point_between(points@[i], points@[i + 1], r@[i].part as int)
                && r@[i].part <= WHOLE_EDGE,
{
    let mut r: Vec<Projection> = Vec::new();
    let mut i: usize = 0;
    while i < points.len() - 1
        invariant
            lon_scale <= 10_000,
            points@.len() >= 2,
            i <= points@.len() - 1,
            r@.len() == i,
            forall|k: int|
                #![trigger r@[k]]
                0 <= k < i ==> r@[k].part == foot(points@[k], points@[k + 1], p, lon_scale as int)
                    && r@[k].point == point_between(points@[k], points@[k + 1], r@[k].part as int)
                    && r@[k].part <= WHOLE_EDGE,
        decreases points@.len() - i,
    {
        let a = points[i];
        let b = points[i + 1];
        let part: u32 = foot_on_segment(a, b, p, lon_scale);
        r.push(Projection { point: point_on_segment(a, b, part), part });
        i = i + 1;
    }
    r
}

/// The sum of the first `n` lengths.
pub open spec fn total(lengths: Seq<u64>, n: int) -> nat
    decreases n,
{
    if n <= 0 {
        0
    } else {
        total(lengths, n - 1) + lengths[n - 1] as nat
    }
}

proof fn lemma_total_grows(lengths: Seq<u64>, m: int, n: int)
    requires
        m <= n,
    ensures
        total(lengths, m) <= total(lengths, n),
    decreases n,
{
    if m < n && 0 < n {
        lemma_total_grows(lengths, m, n - 1);
    }
}

fn sum_of(lengths: &Vec<u64>) -> (r: u64)
    requires
        total(lengths@, lengths@.len() as int) <= u64::MAX,
    ensures
        r == total(lengths@, lengths@.len() as int),
{
    let mut r: u64 = 0;
    let mut i: usize = 0;
    while i < lengths.len()
        invariant
            i <= lengths@.len(),
            r == total(lengths@, i as int),
            total(lengths@, lengths@.len() as int) <= u64::MAX,
        decreases lengths@.len() - i,
    {
        proof {
            lemma_total_grows(lengths@, i + 1, lengths@.len() as int);
        }
        r = r + lengths[i];
        i = i + 1;
    }
    r
}

/// How far along a course a place on a segment lies, `WHOLE_EDGE` being its end.
pub open spec fn progress_at(lengths: Seq<u64>, i: int, part: int) -> int {
    let whole = total(lengths, lengths.len() as int) as int;
    let d = total(lengths, i) * 1_000_000_000 + lengths[i] * part;
    if d >= whole * 1_000_000_000 {
        1_000_000_000
    } else {
        d / whole
    }
}

/// Whether a place is the first of the nearest ones.
pub open spec fn is_nearest(distances: Seq<u64>, k: int) -> bool {
    &&& 0 <= k < distances.len()
    &&& forall|j: int| #![trigger distances[j]] 0 <= j < k ==> distances[j] > distances[k]
    &&& forall|j: int| #![trigger distances[j]] k <= j < distances.len() ==> distances[k] <= distances[j]
}

/// The nearest place on a course, given the distances to the places on its segments and the lengths of
/// these, in millimetres: the place, its distance, and how far along the course it lies. A course
/// without length has none.
pub fn project_point_onto_edge(
    projections: &Vec<Projection>,
    distances_mm: &Vec<u64>,
    lengths_mm: &Vec<u64>,
) -> (r: Option<(Point, u64, u32)>)
    requires
        distances_mm@.len() == projections@.len(),
        lengths_mm@.len() == projections@.len(),
        total(lengths_mm@, lengths_mm@.len() as int) <= u64::MAX,
        forall|i: int|
            0 <= i < projections@.len() ==> (#[trigger] projections@[i]).part <= WHOLE_EDGE,
    ensures
        match r {
            None => total(lengths_mm@, lengths_mm@.len() as int) == 0,
            Some((point, distance, progress)) => {
                &&& total(lengths_mm@, lengths_mm@.len() as int) > 0
                &&& progress <= WHOLE_EDGE
                &&& exists|k: int| #[trigger]
                    is_nearest(distances_mm@, k) && point == projections@[k].point && distance
                        == distances_mm@[k] && progress == progress_at(
                        lengths_mm@,
                        k,
                        projections@[k].part as int,
                    )
            },
        },
{
    let whole: u64 = sum_of(lengths_mm);
    if whole == 0 {
        return None;
    }
    let n: usize = projections.len();
    if n == 0 {
        return None;
    }
    let mut best: usize = 0;
    let mut before: u64 = 0;
    let mut best_before: u64 = 0;
    let mut i: usize = 0;
    while i < n
        invariant
            n == projections@.len(),
            distances_mm@.len() == n,
            lengths_mm@.len() == n,
            total(lengths_mm@, n as int) <= u64::MAX,
            i <= n,
            n > 0,
            best <= i,
            i > 0 ==> best < i,
            i == 0 ==> best == 0,
            before == total(lengths_mm@, i as int),
            best_before == total(lengths_mm@, best as int),
            forall|j: int|
                #![trigger distances_mm@[j]]
                0 <= j < best ==> distances_mm@[j] > distances_mm@[best as int],
            forall|j: int|
                #![trigger distances_mm@[j]]
                best <= j < i ==> distances_mm@[best as int] <= distances_mm@[j],
        decreases n - i,
    {
        proof {
            lemma_total_grows(lengths_mm@, i + 1, n as int);
        }
        if i > 0 && distances_mm[i] < distances_mm[best] {
            best = i;
            best_before = before;
        }
        before = before + lengths_mm[i];
        i = i + 1;
    }
    assert(is_nearest(distances_mm@, best as int));
    let part: u32 = projections[best].part;
    proof {
        assert(projections@[best as int].part <= WHOLE_EDGE);
        lemma_total_grows(lengths_mm@, best as int, n as int);
        lemma_total_grows(lengths_mm@, best + 1, n as int);
        assert(lengths_mm@[best as int] * part <= lengths_mm@[best as int] * 1_000_000_000)
            by (nonlinear_arith)
            requires
                0 <= part <= 1_000_000_000,
                lengths_mm@[best as int] >= 0,
        ;
    }
    let d: u128 = (best_before as u128) * 1_000_000_000 + (lengths_mm[best] as u128) * (part as u128);
    let end: u128 = (whole as u128) * 1_000_000_000;
    let progress: u32 = if d >= end {
        WHOLE_EDGE
    } else {
        assert(0 <= d / (whole as u128) < 1_000_000_000) by (nonlinear_arith)
            requires
                d < (whole as u128) * 1_000_000_000,
                whole > 0,
        ;
        (d / (whole as u128)) as u32
    };
    let r = (projections[best].point, distances_mm[best], progress);
    assert(is_nearest(distances_mm@, best as int) && r.0 == projections@[best as int].point && r.1
        == distances_mm@[best as int] && r.2 == progress_at(
        lengths_mm@,
        best as int,
        projections@[best as int].part as int,
    ));
    Some(r)
}

/// A course with the lengths of its segments in millimetres.
#[derive(Debug)]
pub struct EdgeShape {
    pub points: Vec<Point>,
    pub lengths_mm: Vec<u64>,
}

impl EdgeShape {
    /// Whether there is a length for each segment.
    pub open spec fn wf(&self) -> bool {
        &&& self.points@.len() >= 2
        &&& self.lengths_mm@.len() == self.points@.len() - 1
        &&& total(self.lengths_mm@, self.lengths_mm@.len() as int) <= u64::MAX
    }

    pub open spec fn whole(&self) -> nat {
        total(self.lengths_mm@, self.lengths_mm@.len() as int)
    }
}

/// The segment in which a place lies: the first that reaches it, or the last.
pub open spec fn segment_at(lengths: Seq<u64>, target: int, from: int) -> int
    decreases lengths.len() - from,
{
    if from >= lengths.len() - 1 || target <= total(lengths, from + 1) * 1_000_000_000 {
        from
    } else {
        segment_at(lengths, target, from + 1)
    }
}

/// A part within a segment.
pub open spec fn part_at(lengths: Seq<u64>, target: int, i: int) -> int {
    let rest = target - total(lengths, i) * 1_000_000_000;
    if lengths[i] == 0 || rest < 0 {
        0
    } else if rest / (lengths[i] as int) > 1_000_000_000 {
        1_000_000_000
    } else {
        rest / (lengths[i] as int)
    }
}

/// The point of a course at a progress. One without length is all at its start.
pub open spec fn point_at(s: EdgeShape, progress: int) -> Point {
    if s.whole() == 0 {
        s.points@[0]
    } else {
        let target = progress * s.whole();
        let i = segment_at(s.lengths_mm@, target, 0);
        point_between(s.points@[i], s.points@[i + 1], part_at(s.lengths_mm@, target, i))
    }
}

/// A progress within the course.
pub open spec fn clamped(progress: u32) -> int {
    if progress > WHOLE_EDGE {
        1_000_000_000
    } else {
        progress as int
    }
}

/// The point of a course at a progress.
pub fn point_at_edge_progress(shape: &EdgeShape, progress: u32) -> (r: Point)
    requires
        shape.wf(),
    ensures
        r == point_at(*shape, clamped(progress)),
{
    let whole: u64 = sum_of(&shape.lengths_mm);
    if whole == 0 {
        return shape.points[0];
    }
    let p: u32 = if progress > WHOLE_EDGE {
        WHOLE_EDGE
    } else {
        progress
    };
    let ghost lengths = shape.lengths_mm@;
    assert((p as int) * (whole as int) <= 1_000_000_000 * 0x1_0000_0000_0000_0000)
        by (nonlinear_arith)
        requires
            0 <= p <= 1_000_000_000,
            0 <= whole < 0x1_0000_0000_0000_0000,
    ;
    let target: u128 = (p as u128) * (whole as u128);
    assert(target == p * whole);
    let n: usize = shape.lengths_mm.len();
    let mut i: usize = 0;
    let mut before: u64 = 0;
    while i + 1 < n && target > ((before + shape.lengths_mm[i]) as u128) * 1_000_000_000
        invariant
            shape.wf(),
            lengths == shape.lengths_mm@,
            n == lengths.len(),
            i < n,
            before == total(lengths, i as int),
            before + lengths[i as int] <= u64::MAX,
            segment_at(lengths, target as int, 0) == segment_at(lengths, target as int, i as int),
        decreases n - i,
    {
        before = before + shape.lengths_mm[i];
        i = i + 1;
        proof {
            lemma_total_grows(lengths, i + 1, n as int);
        }
    }
    proof {
        lemma_total_grows(lengths, i as int, n as int);
    }
    let len: u64 = shape.lengths_mm[i];
    let start: u128 = (before as u128) * 1_000_000_000;
    let part: u32 = if len == 0 || target < start {
        0
    } else {
        let q: u128 = (target - start) / (len as u128);
        if q > 1_000_000_000 {
            WHOLE_EDGE
        } else {
            q as u32
        }
    };
    assert(part == part_at(lengths, target as int, i as int));
    point_on_segment(shape.points[i], shape.points[i + 1], part)
}

/// Points with one behind them, unless it is where they end.
pub open spec fn with_point(points: Seq<Point>, p: Point) -> Seq<Point> {
    if points.len() > 0 && points.last() == p {
        points
    } else {
        points.push(p)
    }
}

/// Appends a point unless the points end there.
pub fn push_shape_point(points: &mut Vec<Point>, p: Point)
    ensures
        final(points)@ == with_point(old(points)@, p),
{
    if points.len() > 0 {
        let last = points[points.len() - 1];
        if last.x == p.x && last.y == p.y {
            return ;
        }
    }
    points.push(p);
}

/// Points with those corners, among the first `n`, that lie strictly between two distances behind them.
pub open spec fn with_corners(
    out: Seq<Point>,
    s: EdgeShape,
    start: int,
    end: int,
    n: int,
) -> Seq<Point>
    decreases n,
{
    if n <= 0 {
        out
    } else {
        let rest = with_corners(out, s, start, end, n - 1);
        let d = total(s.lengths_mm@, n) * 1_000_000_000;
        if n < s.points@.len() - 1 && start < d < end {
            with_point(rest, s.points@[n])
        } else {
            rest
        }
    }
}

/// Points with a piece of a course behind them: where it begins, its corners, where it ends. A piece
/// that runs backwards has no corners.
pub open spec fn with_slice(out: Seq<Point>, s: EdgeShape, from: int, to: int) -> Seq<Point> {
    let a = point_at(s, from);
    let b = point_at(s, to);
    if to < from {
        with_point(with_point(out, a), b)
    } else {
        with_point(
            with_corners(
                with_point(out, a),
                s,
                from * s.whole(),
                to * s.whole(),
                s.lengths_mm@.len() as int,
            ),
            b,
        )
    }
}

/// Appends a piece of a course.
pub fn append_edge_slice(
    output: &mut Vec<Point>,
    shape: &EdgeShape,
    start_progress: u32,
    end_progress: u32,
)
    requires
        shape.wf(),
    ensures
        final(output)@ == with_slice(
            old(output)@,
            *shape,
            clamped(start_progress),
            clamped(end_progress),
        ),
{
    let from: u32 = if start_progress > WHOLE_EDGE {
        WHOLE_EDGE
    } else {
        start_progress
    };
    let to: u32 = if end_progress > WHOLE_EDGE {
        WHOLE_EDGE
    } else {
        end_progress
    };
    let start = point_at_edge_progress(shape, from);
    let end = point_at_edge_progress(shape, to);
    push_shape_point(output, start);
    if to < from {
        push_shape_point(output, end);
        return ;
    }
    let ghost out = output@;
    let whole: u64 = sum_of(&shape.lengths_mm);
    let ghost lengths = shape.lengths_mm@;
    let ghost s0 = from * whole;
    let ghost e0 = to * whole;
    assert(from * whole <= 1_000_000_000 * 0x1_0000_0000_0000_0000) by (nonlinear_arith)
        requires
            0 <= from <= 1_000_000_000,
            0 <= whole < 0x1_0000_0000_0000_0000,
    ;
    assert(to * whole <= 1_000_000_000 * 0x1_0000_0000_0000_0000) by (nonlinear_arith)
        requires
            0 <= to <= 1_000_000_000,
            0 <= whole < 0x1_0000_0000_0000_0000,
    ;
    let s: u128 = (from as u128) * (whole as u128);
    let e: u128 = (to as u128) * (whole as u128);
    assert(s == s0 && e == e0);
    let mut before: u64 = 0;
    let mut i: usize = 0;
    while i < shape.lengths_mm.len()
        invariant
            shape.wf(),
            lengths == shape.lengths_mm@,
            whole == shape.whole(),
            i <= lengths.len(),
            before == total(lengths, i as int),
            s == from * whole,
            e == to * whole,
            output@ == with_corners(out, *shape, s as int, e as int, i as int),
        decreases lengths.len() - i,
    {
        proof {
            lemma_total_grows(lengths, i + 1, lengths.len() as int);
        }
        before = before + shape.lengths_mm[i];
        let d: u128 = (before as u128) * 1_000_000_000;
        if i + 1 < shape.points.len() - 1 && d > s && d < e {
            push_shape_point(output, shape.points[i + 1]);
        }
        i = i + 1;
    }
    push_shape_point(output, end);
}

/// Points with the pieces of the first `n` edges of a hop behind them: the first is cut at its start,
/// the last at its end.
pub open spec fn with_edges(
    out: Seq<Point>,
    shapes: Seq<EdgeShape>,
    start: int,
    end: int,
    n: int,
) -> Seq<Point>
    decreases n,
{
    if n <= 0 {
        out
    } else {
        with_slice(
            with_edges(out, shapes, start, end, n - 1),
            shapes[n - 1],
            if n == 1 {
                start
            } else {
                0
            },
            if n == shapes.len() {
                end
            } else {
                1_000_000_000
            },
        )
    }
}

/// Points with one behind them, if there is one.
pub open spec fn with_some(points: Seq<Point>, p: Option<Point>) -> Seq<Point> {
    match p {
        Some(q) => with_point(points, q),
        None => points,
    }
}

/// Where a hop without edges begins or ends: on its edge, if it has one, else at its point.
pub open spec fn hop_end(shape: Option<EdgeShape>, progress: u32, point: Option<Point>) -> Option<
    Point,
> {
    match shape {
        Some(s) => Some(point_at(s, clamped(progress))),
        None => point,
    }
}

/// Points with a hop behind them: the pieces of its edges, or a straight line if it has none.
pub open spec fn with_hop(
    out: Seq<Point>,
    hop: EdgeHop,
    shapes: Seq<EdgeShape>,
    start_shape: Option<EdgeShape>,
    end_shape: Option<EdgeShape>,
) -> Seq<Point> {
    if shapes.len() > 0 {
        with_edges(
            out,
            shapes,
            clamped(hop.start_progr),
            clamped(hop.end_progr),
            shapes.len() as int,
        )
    } else {
        with_some(
            with_some(out, hop_end(start_shape, hop.start_progr, hop.start_point)),
            hop_end(end_shape, hop.end_progr, hop.end_point),
        )
    }
}

pub open spec fn shape_of(s: Option<&EdgeShape>) -> Option<EdgeShape> {
    match s {
        Some(t) => Some(*t),
        None => None,
    }
}

fn end_point(shape: Option<&EdgeShape>, progress: u32, point: Option<Point>) -> (r: Option<Point>)
    requires
        shape matches Some(s) ==> s.wf(),
    ensures
        r == hop_end(shape_of(shape), progress, point),
{
    match shape {
        Some(s) => Some(point_at_edge_progress(s, progress)),
        None => point,
    }
}

/// Appends a hop, given the courses of its edges, or of those at its ends if it has none.
pub fn append_hop_geometry(
    output: &mut Vec<Point>,
    hop: &EdgeHop,
    shapes: &Vec<EdgeShape>,
    start_shape: Option<&EdgeShape>,
    end_shape: Option<&EdgeShape>,
)
    requires
        shapes@.len() == hop.edges@.len(),
        forall|i: int| 0 <= i < shapes@.len() ==> (#[trigger] shapes@[i]).wf(),
        start_shape matches Some(s) ==> s.wf(),
        end_shape matches Some(s) ==> s.wf(),
    ensures
        final(output)@ == with_hop(
            old(output)@,
            *hop,
            shapes@,
            shape_of(start_shape),
            shape_of(end_shape),
        ),
{
    if shapes.len() > 0 {
        let ghost out = output@;
        let n: usize = shapes.len();
        let mut i: usize = 0;
        while i < n
            invariant
                n == shapes@.len(),
                n > 0,
                i <= n,
                forall|k: int| 0 <= k < shapes@.len() ==> (#[trigger] shapes@[k]).wf(),
                output@ == with_edges(
                    out,
                    shapes@,
                    clamped(hop.start_progr),
                    clamped(hop.end_progr),
                    i as int,
                ),
            decreases n - i,
        {
            let start: u32 = if i == 0 {
                hop.start_progr
            } else {
                0
            };
            let end: u32 = if i + 1 == n {
                hop.end_progr
            } else {
                WHOLE_EDGE
            };
            assert(shapes@[i as int].wf());
            append_edge_slice(output, &shapes[i], start, end);
            i = i + 1;
        }
        return ;
    }
    if let Some(p) = end_point(start_shape, hop.start_progr, hop.start_point) {
        push_shape_point(output, p);
    }
    if let Some(p) = end_point(end_shape, hop.end_progr, hop.end_point) {
        push_shape_point(output, p);
    }
}

/// A hop is always drawn: if it has edges or known ends, points come out, and they end where the hop
/// does.
pub proof fn lemma_hop_is_drawn(
    out: Seq<Point>,
    hop: EdgeHop,
    shapes: Seq<EdgeShape>,
    start_shape: Option<EdgeShape>,
    end_shape: Option<EdgeShape>,
)
    requires
        shapes.len() > 0 || hop_end(end_shape, hop.end_progr, hop.end_point) is Some,
    ensures
        with_hop(out, hop, shapes, start_shape, end_shape).len() > 0,
        with_hop(out, hop, shapes, start_shape, end_shape).last() == (if shapes.len() > 0 {
            point_at(shapes.last(), clamped(hop.end_progr))
        } else {
            hop_end(end_shape, hop.end_progr, hop.end_point)->0
        }),
{
}

/// Whether every segment of a course has a length.
pub open spec fn has_lengths(s: EdgeShape) -> bool {
    forall|i: int| 0 <= i < s.lengths_mm@.len() ==> #[trigger] s.lengths_mm@[i] > 0
}

/// The lengths up to a place are the sum of those before it.
pub proof fn lemma_total_is_sum(lengths: Seq<u64>, n: int)
    requires
        0 <= n <= lengths.len(),
    ensures
        total(lengths, n) == lengths.take(n).fold_left(0nat, |sum: nat, x: u64| (sum + x) as nat),
    decreases n,
{
    if n > 0 {
        lemma_total_is_sum(lengths, n - 1);
        assert(lengths.take(n).drop_last() =~= lengths.take(n - 1));
    }
}

proof fn lemma_total_strict(s: EdgeShape, i: int, j: int)
    requires
        has_lengths(s),
        0 <= i < j <= s.lengths_mm@.len(),
    ensures
        total(s.lengths_mm@, i) < total(s.lengths_mm@, j),
    decreases j,
{
    assert(s.lengths_mm@[j - 1] > 0);
    if i < j - 1 {
        lemma_total_strict(s, i, j - 1);
    }
}

/// The segment in which a place lies begins before it, unless it is the first that was looked at, and
/// reaches it, unless it is the last.
proof fn lemma_segment_at(lengths: Seq<u64>, target: int, from: int)
    requires
        0 <= from < lengths.len(),
    ensures
        ({
            let i = segment_at(lengths, target, from);
            &&& from <= i < lengths.len()
            &&& i > from ==> total(lengths, i) * 1_000_000_000 < target
            &&& i < lengths.len() - 1 ==> target <= total(lengths, i + 1) * 1_000_000_000
        }),
    decreases lengths.len() - from,
{
    if !(from >= lengths.len() - 1 || target <= total(lengths, from + 1) * 1_000_000_000) {
        lemma_segment_at(lengths, target, from + 1);
    }
}

/// A course begins at its first point and ends at one of its points, which is the last if every segment
/// has a length.
pub proof fn lemma_course_ends(s: EdgeShape)
    requires
        s.wf(),
    ensures
        point_at(s, 0) == s.points@[0],
        exists|i: int| 0 <= i < s.points@.len() && point_at(s, 1_000_000_000) == #[trigger] s.points@[i],
        has_lengths(s) ==> point_at(s, 1_000_000_000) == s.points@.last(),
{
    let lengths = s.lengths_mm@;
    let n = lengths.len() as int;
    let whole = s.whole() as int;
    assert(0 * s.whole() == 0);
    if whole > 0 {
        lemma_segment_at(lengths, 0, 0);
        lemma_total_grows(lengths, 0, 1);
        assert(total(lengths, 0) == 0);
        lemma_point_between(s.points@[0], s.points@[1], 0);
        let target = 1_000_000_000int * s.whole();
        let i = segment_at(lengths, target, 0);
        lemma_segment_at(lengths, target, 0);
        lemma_total_grows(lengths, i + 1, n);
        assert(total(lengths, i + 1) == whole);
        assert(total(lengths, i + 1) == total(lengths, i) + lengths[i]);
        let len = lengths[i] as int;
        assert(len > 0) by {
            if i == 0 {
                assert(total(lengths, 0) == 0);
            }
        }
        let rest = target - total(lengths, i) * 1_000_000_000;
        assert(rest == len * 1_000_000_000);
        assert(rest / len == 1_000_000_000) by (nonlinear_arith)
            requires
                rest == len * 1_000_000_000,
                len > 0,
        ;
        lemma_point_between(s.points@[i], s.points@[i + 1], 1_000_000_000);
        assert(point_at(s, 1_000_000_000) == s.points@[i + 1]);
        if has_lengths(s) && i < n - 1 {
            lemma_total_strict(s, i + 1, n);
        }
    } else {
        assert(point_at(s, 1_000_000_000) == s.points@[0]);
        if has_lengths(s) {
            lemma_total_strict(s, 0, n);
        }
    }
}

/// The point at a progress stands on the segment in which that share of the length ends, after the part
/// of the segment that is missing to it.
pub proof fn lemma_point_at(s: EdgeShape, progress: int, i: int) -> (part: int)
    requires
        s.wf(),
        has_lengths(s),
        0 <= progress <= 1_000_000_000,
        0 <= i < s.lengths_mm@.len(),
        total(s.lengths_mm@, i) * 1_000_000_000 <= progress * s.whole() <= total(s.lengths_mm@, i + 1)
            * 1_000_000_000,
    ensures
        0 <= part <= 1_000_000_000,
        point_at(s, progress) == point_between(s.points@[i], s.points@[i + 1], part),
        part * s.lengths_mm@[i] <= progress * s.whole() - total(s.lengths_mm@, i) * 1_000_000_000,
        progress * s.whole() - total(s.lengths_mm@, i) * 1_000_000_000 < (part + 1)
            * s.lengths_mm@[i],
{
    let lengths = s.lengths_mm@;
    let n = lengths.len() as int;
    let target = progress * s.whole();
    let len = lengths[i] as int;
    let k = segment_at(lengths, target, 0);
    lemma_segment_at(lengths, target, 0);
    lemma_total_strict(s, 0, n);
    assert(total(lengths, i + 1) == total(lengths, i) + lengths[i]);
    if k > i {
        if k > i + 1 {
            lemma_total_strict(s, i + 1, k);
        }
        assert(false);
    }
    if k < i {
        if k + 1 < i {
            lemma_total_strict(s, k + 1, i);
        }
        assert(k + 1 == i);
        assert(target == total(lengths, i) * 1_000_000_000);
        let last = lengths[k] as int;
        assert(total(lengths, k + 1) == total(lengths, k) + lengths[k]);
        let rest = target - total(lengths, k) * 1_000_000_000;
        assert(rest == last * 1_000_000_000);
        assert(rest / last == 1_000_000_000) by (nonlinear_arith)
            requires
                rest == last * 1_000_000_000,
                last > 0,
        ;
        lemma_point_between(s.points@[k], s.points@[k + 1], 1_000_000_000);
        lemma_point_between(s.points@[i], s.points@[i + 1], 0);
        0
    } else {
        let rest = target - total(lengths, i) * 1_000_000_000;
        let part = rest / len;
        assert(0 <= part <= 1_000_000_000 && part * len <= rest < (part + 1) * len)
            by (nonlinear_arith)
            requires
                0 <= rest <= len * 1_000_000_000,
                len > 0,
                part == rest / len,
        ;
        part
    }
}

/// The progress of a place is the share of the length that lies before it, rounded down. Of two places
/// the one further along has no smaller progress.
pub proof fn lemma_progress_is_share(lengths: Seq<u64>, i: int, part: int, j: int, further: int)
    requires
        total(lengths, lengths.len() as int) > 0,
        0 <= i <= j < lengths.len(),
        0 <= part <= 1_000_000_000,
        0 <= further <= 1_000_000_000,
        i < j || part <= further,
    ensures
        ({
            let whole = total(lengths, lengths.len() as int) as int;
            let before = total(lengths, i) * 1_000_000_000 + lengths[i] * part;
            let p = progress_at(lengths, i, part);
            &&& 0 <= p <= 1_000_000_000
            &&& p * whole <= before < (p + 1) * whole
            &&& p <= progress_at(lengths, j, further)
        }),
{
    let whole = total(lengths, lengths.len() as int) as int;
    lemma_share(lengths, i, part);
    lemma_share(lengths, j, further);
    let a = total(lengths, i) * 1_000_000_000 + lengths[i] * part;
    let b = total(lengths, j) * 1_000_000_000 + lengths[j] * further;
    let p = progress_at(lengths, i, part);
    let q = progress_at(lengths, j, further);
    assert(a <= b) by {
        if i < j {
            lemma_total_grows(lengths, i + 1, j);
            assert(total(lengths, i + 1) == total(lengths, i) + lengths[i]);
            assert(lengths[i] * part <= lengths[i] * 1_000_000_000) by (nonlinear_arith)
                requires
                    0 <= part <= 1_000_000_000,
                    lengths[i] >= 0,
            ;
            assert(lengths[j] * further >= 0) by (nonlinear_arith)
                requires
                    further >= 0,
                    lengths[j] >= 0,
            ;
        } else {
            assert(lengths[i] * part <= lengths[i] * further) by (nonlinear_arith)
                requires
                    part <= further,
                    lengths[i] >= 0,
            ;
        }
    }
    assert(p <= q) by (nonlinear_arith)
        requires
            p * whole <= a,
            a <= b,
            b < (q + 1) * whole,
            whole > 0,
    ;
}

proof fn lemma_share(lengths: Seq<u64>, i: int, part: int)
    requires
        total(lengths, lengths.len() as int) > 0,
        0 <= i < lengths.len(),
        0 <= part <= 1_000_000_000,
    ensures
        ({
            let whole = total(lengths, lengths.len() as int) as int;
            let before = total(lengths, i) * 1_000_000_000 + lengths[i] * part;
            let p = progress_at(lengths, i, part);
            &&& 0 <= p <= 1_000_000_000
            &&& p * whole <= before < (p + 1) * whole
        }),
{
    let whole = total(lengths, lengths.len() as int) as int;
    let d = total(lengths, i) * 1_000_000_000 + lengths[i] * part;
    lemma_total_grows(lengths, i + 1, lengths.len() as int);
    assert(total(lengths, i + 1) == total(lengths, i) + lengths[i]);
    assert(0 <= lengths[i] * part <= lengths[i] * 1_000_000_000) by (nonlinear_arith)
        requires
            0 <= part <= 1_000_000_000,
            lengths[i] >= 0,
    ;
    if d < whole * 1_000_000_000 {
        let p = d / whole;
        assert(0 <= p <= 1_000_000_000 && p * whole <= d < (p + 1) * whole) by (nonlinear_arith)
            requires
                0 <= d < whole * 1_000_000_000,
                whole > 0,
                p == d / whole,
        ;
    }
}

// What is drawn of a hop.

/// Whether a corner of an edge lies on a hop: all corners of the edges between the first and the last,
/// those of the first edge that lie behind its start, and those of the last that lie before its end. The
/// segments of the edge have lengths.
pub open spec fn lies_on_hop(shapes: Seq<EdgeShape>, start: int, end: int, k: int, i: int) -> bool {
    &&& 0 <= k < shapes.len()
    &&& 0 <= i < shapes[k].points@.len()
    &&& has_lengths(shapes[k])
    &&& k > 0 || total(shapes[k].lengths_mm@, i) * 1_000_000_000 > start * shapes[k].whole()
    &&& k < shapes.len() - 1 || total(shapes[k].lengths_mm@, i) * 1_000_000_000 < end
        * shapes[k].whole()
}

/// Whether points pass the corners of a hop, from a position on: `at` says where they pass which corner
/// of which edge, and they do so in the order of travel.
pub open spec fn passes(
    drawn: Seq<Point>,
    least: int,
    shapes: Seq<EdgeShape>,
    start: int,
    end: int,
    at: spec_fn(int, int) -> int,
) -> bool {
    &&& forall|k: int, i: int| #[trigger]
        lies_on_hop(shapes, start, end, k, i) ==> least <= at(k, i) < drawn.len() && drawn[at(k, i)]
            == shapes[k].points@[i]
    &&& forall|k: int, i: int, l: int, j: int|
        #![trigger lies_on_hop(shapes, start, end, k, i), lies_on_hop(shapes, start, end, l, j)]
        lies_on_hop(shapes, start, end, k, i) && lies_on_hop(shapes, start, end, l, j) && (k < l || (k
            == l && i <= j)) ==> at(k, i) <= at(l, j)
}

/// Whether points pass all corners of a hop, from a position on, in the order of travel.
pub open spec fn passes_corners(
    drawn: Seq<Point>,
    least: int,
    shapes: Seq<EdgeShape>,
    start: int,
    end: int,
) -> bool {
    exists|at: spec_fn(int, int) -> int| #[trigger] passes(drawn, least, shapes, start, end, at)
}

/// Whether points begin with others.
pub open spec fn begins_with(a: Seq<Point>, b: Seq<Point>) -> bool {
    &&& b.len() <= a.len()
    &&& forall|i: int| 0 <= i < b.len() ==> #[trigger] a[i] == b[i]
}

proof fn lemma_corners_grow(out: Seq<Point>, s: EdgeShape, start: int, end: int, m: int, n: int)
    requires
        m <= n,
    ensures
        begins_with(with_corners(out, s, start, end, n), with_corners(out, s, start, end, m)),
        begins_with(with_corners(out, s, start, end, n), out),
    decreases n,
{
    if n > 0 {
        lemma_corners_grow(out, s, start, end, n - 1, n - 1);
        if m < n {
            lemma_corners_grow(out, s, start, end, m, n - 1);
        }
    }
}

proof fn lemma_edges_grow(
    out: Seq<Point>,
    shapes: Seq<EdgeShape>,
    start: int,
    end: int,
    m: int,
    n: int,
)
    requires
        m <= n,
    ensures
        begins_with(with_edges(out, shapes, start, end, n), with_edges(out, shapes, start, end, m)),
        begins_with(with_edges(out, shapes, start, end, n), out),
    decreases n,
{
    if n > 0 {
        let base = with_edges(out, shapes, start, end, n - 1);
        let s = shapes[n - 1];
        let f = if n == 1 {
            start
        } else {
            0
        };
        let t = if n == shapes.len() {
            end
        } else {
            1_000_000_000
        };
        lemma_edges_grow(out, shapes, start, end, n - 1, n - 1);
        lemma_corners_grow(
            with_point(base, point_at(s, f)),
            s,
            f * s.whole(),
            t * s.whole(),
            0,
            s.lengths_mm@.len() as int,
        );
        assert(begins_with(with_edges(out, shapes, start, end, n), base));
        if m < n {
            lemma_edges_grow(out, shapes, start, end, m, n - 1);
        }
    }
}

/// Where the points of the edges of a hop come to pass a corner.
spec fn drawn_at(
    out: Seq<Point>,
    shapes: Seq<EdgeShape>,
    start: int,
    end: int,
    k: int,
    i: int,
) -> int {
    let s = shapes[k];
    let f = if k == 0 {
        start
    } else {
        0
    };
    let t = if k == shapes.len() - 1 {
        end
    } else {
        1_000_000_000
    };
    let o = with_point(with_edges(out, shapes, start, end, k), point_at(s, f));
    if i >= s.points@.len() - 1 {
        with_edges(out, shapes, start, end, k + 1).len() - 1
    } else {
        with_corners(o, s, f * s.whole(), t * s.whole(), i).len() - 1
    }
}

proof fn lemma_corner_drawn(
    out: Seq<Point>,
    shapes: Seq<EdgeShape>,
    start: int,
    end: int,
    k: int,
    i: int,
)
    requires
        0 <= start <= 1_000_000_000,
        0 <= end <= 1_000_000_000,
        forall|k: int| 0 <= k < shapes.len() ==> (#[trigger] shapes[k]).wf(),
        lies_on_hop(shapes, start, end, k, i),
    ensures
        ({
            let drawn = with_edges(out, shapes, start, end, shapes.len() as int);
            let at = drawn_at(out, shapes, start, end, k, i);
            &&& out.len() - 1 <= at < drawn.len()
            &&& drawn[at] == shapes[k].points@[i]
            &&& with_edges(out, shapes, start, end, k).len() - 1 <= at
            &&& at <= with_edges(out, shapes, start, end, k + 1).len() - 1
        }),
{
    let n = shapes.len() as int;
    let s = shapes[k];
    let f = if k == 0 {
        start
    } else {
        0
    };
    let t = if k == n - 1 {
        end
    } else {
        1_000_000_000
    };
    let base = with_edges(out, shapes, start, end, k);
    let next = with_edges(out, shapes, start, end, k + 1);
    let drawn = with_edges(out, shapes, start, end, n);
    let o = with_point(base, point_at(s, f));
    let m = s.lengths_mm@.len() as int;
    let d = total(s.lengths_mm@, i) * 1_000_000_000;
    let from = f * s.whole();
    let to = t * s.whole();
    assert(s.wf());
    lemma_edges_grow(out, shapes, start, end, k, k + 1);
    lemma_edges_grow(out, shapes, start, end, k + 1, n);
    lemma_edges_grow(out, shapes, start, end, 0, k);
    lemma_course_ends(s);
    lemma_total_grows(s.lengths_mm@, i, m);
    assert(next == with_slice(base, s, f, t));
    if t < f {
        assert(n == 1 && k == 0);
        assert(to <= from) by (nonlinear_arith)
            requires
                t < f,
                from == f * s.whole(),
                to == t * s.whole(),
        ;
        assert(false);
    }
    if i == m {
        assert(d == s.whole() * 1_000_000_000);
        if k == n - 1 {
            assert(to <= d) by (nonlinear_arith)
                requires
                    t <= 1_000_000_000,
                    d == s.whole() * 1_000_000_000,
                    to == t * s.whole(),
            ;
            assert(false);
        }
        assert(next.last() == point_at(s, t));
    } else {
        let c = with_corners(o, s, from, to, i);
        lemma_corners_grow(o, s, from, to, i, m);
        lemma_corners_grow(o, s, from, to, 0, i);
        assert(begins_with(next, c));
        if i == 0 {
            assert(total(s.lengths_mm@, 0) == 0);
            assert(from >= 0) by (nonlinear_arith)
                requires
                    f >= 0,
                    from == f * s.whole(),
            ;
            assert(k > 0);
            assert(c.last() == s.points@[0]);
        } else {
            assert(from < d) by {
                if k > 0 {
                    lemma_total_strict(s, 0, i);
                    assert(0 * s.whole() == 0);
                }
            }
            assert(d < to) by {
                if k < n - 1 {
                    lemma_total_strict(s, i, m);
                }
            }
            assert(c.last() == s.points@[i]);
        }
        assert(c.len() > 0);
        assert(next[c.len() - 1] == c[c.len() - 1]);
    }
}

/// A hop is drawn along its edges: its points are put behind those that were there, they begin where the
/// hop begins, and they pass every corner that lies on the hop, in the order of travel.
pub proof fn lemma_hop_follows_edges(
    out: Seq<Point>,
    hop: EdgeHop,
    shapes: Seq<EdgeShape>,
    start_shape: Option<EdgeShape>,
    end_shape: Option<EdgeShape>,
)
    requires
        shapes.len() > 0,
        forall|k: int| 0 <= k < shapes.len() ==> (#[trigger] shapes[k]).wf(),
    ensures
        ({
            let drawn = with_hop(out, hop, shapes, start_shape, end_shape);
            let start = if hop.start_progr > 1_000_000_000 {
                1_000_000_000
            } else {
                hop.start_progr as int
            };
            let end = if hop.end_progr > 1_000_000_000 {
                1_000_000_000
            } else {
                hop.end_progr as int
            };
            let first = point_at(shapes[0], start);
            &&& begins_with(drawn, out)
            &&& (out.len() > 0 && out.last() == first) || (drawn.len() > out.len()
                && drawn[out.len() as int] == first)
            &&& passes_corners(drawn, out.len() - 1, shapes, start, end)
        }),
{
    let start = clamped(hop.start_progr);
    let end = clamped(hop.end_progr);
    let n = shapes.len() as int;
    let drawn = with_edges(out, shapes, start, end, n);
    let at = |k: int, i: int| drawn_at(out, shapes, start, end, k, i);
    lemma_edges_grow(out, shapes, start, end, 0, n);
    lemma_edges_grow(out, shapes, start, end, 1, n);
    assert forall|k: int, i: int| #[trigger] lies_on_hop(shapes, start, end, k, i) implies out.len()
        - 1 <= at(k, i) < drawn.len() && drawn[at(k, i)] == shapes[k].points@[i] by {
        lemma_corner_drawn(out, shapes, start, end, k, i);
    }
    assert forall|k: int, i: int, l: int, j: int|
        #![trigger lies_on_hop(shapes, start, end, k, i), lies_on_hop(shapes, start, end, l, j)]
        lies_on_hop(shapes, start, end, k, i) && lies_on_hop(shapes, start, end, l, j) && (k < l || (k
            == l && i <= j)) implies at(k, i) <= at(l, j) by {
        lemma_corner_drawn(out, shapes, start, end, k, i);
        lemma_corner_drawn(out, shapes, start, end, l, j);
        if k < l {
            lemma_edges_grow(out, shapes, start, end, k + 1, l);
        } else if j < shapes[k].points@.len() - 1 {
            let s = shapes[k];
            let f = if k == 0 {
                start
            } else {
                0
            };
            let t = if k == n - 1 {
                end
            } else {
                1_000_000_000
            };
            lemma_corners_grow(
                with_point(with_edges(out, shapes, start, end, k), point_at(s, f)),
                s,
                f * s.whole(),
                t * s.whole(),
                i,
                j,
            );
        }
    }
    assert(passes(drawn, out.len() - 1, shapes, start, end, at));
    let s = shapes[0];
    let t = if n == 1 {
        end
    } else {
        1_000_000_000
    };
    let o = with_point(out, point_at(s, start));
    lemma_corners_grow(o, s, start * s.whole(), t * s.whole(), 0, s.lengths_mm@.len() as int);
    assert(begins_with(with_edges(out, shapes, start, end, 1), o)) by {
        assert(with_edges(out, shapes, start, end, 0) == out);
        assert(with_edges(out, shapes, start, end, 1) == with_slice(out, s, start, t));
    }
    if !(out.len() > 0 && out.last() == point_at(s, start)) {
        assert(o[out.len() as int] == point_at(s, start));
        assert(drawn[out.len() as int] == with_edges(out, shapes, start, end, 1)[out.len() as int]);
    }
    assert(passes_corners(drawn, out.len() - 1, shapes, start, end));
}

/// Whether a point is a corner of one of the edges.
pub open spec fn is_corner(shapes: Seq<EdgeShape>, p: Point) -> bool {
    exists|k: int, i: int|
        0 <= k < shapes.len() && 0 <= i < shapes[k].points@.len() && p
            == #[trigger] shapes[k].points@[i]
}

/// Whether points, from a position on, are corners of the edges or one of two others, and no point comes
/// twice in a row.
pub open spec fn only_corners(
    drawn: Seq<Point>,
    least: int,
    shapes: Seq<EdgeShape>,
    a: Point,
    b: Point,
) -> bool {
    forall|x: int|
        least <= x < drawn.len() ==> (is_corner(shapes, #[trigger] drawn[x]) || drawn[x] == a || drawn[x]
            == b) && (x > 0 ==> drawn[x] != drawn[x - 1])
}

proof fn lemma_only_point(
    drawn: Seq<Point>,
    least: int,
    shapes: Seq<EdgeShape>,
    a: Point,
    b: Point,
    p: Point,
)
    requires
        least >= 0,
        only_corners(drawn, least, shapes, a, b),
        is_corner(shapes, p) || p == a || p == b,
    ensures
        only_corners(with_point(drawn, p), least, shapes, a, b),
{
    let more = with_point(drawn, p);
    assert forall|x: int| least <= x < more.len() implies (is_corner(shapes, #[trigger] more[x])
        || more[x] == a || more[x] == b) && (x > 0 ==> more[x] != more[x - 1]) by {
        if x < drawn.len() {
            assert(more[x] == drawn[x]);
        }
    }
}

proof fn lemma_only_corners(
    out: Seq<Point>,
    least: int,
    shapes: Seq<EdgeShape>,
    a: Point,
    b: Point,
    k: int,
    start: int,
    end: int,
    n: int,
)
    requires
        least >= 0,
        0 <= k < shapes.len(),
        only_corners(out, least, shapes, a, b),
    ensures
        only_corners(with_corners(out, shapes[k], start, end, n), least, shapes, a, b),
    decreases n,
{
    if n > 0 {
        lemma_only_corners(out, least, shapes, a, b, k, start, end, n - 1);
        if n < shapes[k].points@.len() - 1 {
            assert(is_corner(shapes, shapes[k].points@[n]));
            lemma_only_point(
                with_corners(out, shapes[k], start, end, n - 1),
                least,
                shapes,
                a,
                b,
                shapes[k].points@[n],
            );
        }
    }
}

proof fn lemma_only_edges(
    out: Seq<Point>,
    shapes: Seq<EdgeShape>,
    start: int,
    end: int,
    n: int,
)
    requires
        0 <= n <= shapes.len(),
        shapes.len() > 0,
        forall|k: int| 0 <= k < shapes.len() ==> (#[trigger] shapes[k]).wf(),
    ensures
        only_corners(
            with_edges(out, shapes, start, end, n),
            out.len() as int,
            shapes,
            point_at(shapes[0], start),
            point_at(shapes.last(), end),
        ),
    decreases n,
{
    let a = point_at(shapes[0], start);
    let b = point_at(shapes.last(), end);
    let least = out.len() as int;
    if n > 0 {
        lemma_only_edges(out, shapes, start, end, n - 1);
        let s = shapes[n - 1];
        let base = with_edges(out, shapes, start, end, n - 1);
        let f = if n == 1 {
            start
        } else {
            0
        };
        let t = if n == shapes.len() {
            end
        } else {
            1_000_000_000
        };
        lemma_course_ends(s);
        let p = point_at(s, f);
        let q = point_at(s, t);
        assert(is_corner(shapes, p) || p == a) by {
            if n > 1 {
                assert(p == shapes[n - 1].points@[0]);
            }
        }
        assert(is_corner(shapes, q) || q == b) by {
            if n < shapes.len() {
                let i = choose|i: int|
                    0 <= i < s.points@.len() && point_at(s, 1_000_000_000) == #[trigger] s.points@[i];
                assert(q == shapes[n - 1].points@[i]);
            }
        }
        lemma_only_point(base, least, shapes, a, b, p);
        let o = with_point(base, p);
        let m = s.lengths_mm@.len() as int;
        lemma_only_corners(o, least, shapes, a, b, n - 1, f * s.whole(), t * s.whole(), m);
        let c = with_corners(o, s, f * s.whole(), t * s.whole(), m);
        lemma_only_point(c, least, shapes, a, b, q);
        lemma_only_point(o, least, shapes, a, b, q);
    }
}

/// Nothing else is drawn of a hop than corners of its edges, its start and its end, and no point is drawn
/// twice in a row.
pub proof fn lemma_hop_draws_nothing_else(
    out: Seq<Point>,
    hop: EdgeHop,
    shapes: Seq<EdgeShape>,
    start_shape: Option<EdgeShape>,
    end_shape: Option<EdgeShape>,
)
    requires
        shapes.len() > 0,
        forall|k: int| 0 <= k < shapes.len() ==> (#[trigger] shapes[k]).wf(),
    ensures
        only_corners(
            with_hop(out, hop, shapes, start_shape, end_shape),
            out.len() as int,
            shapes,
            point_at(
                shapes[0],
                if hop.start_progr > 1_000_000_000 {
                    1_000_000_000
                } else {
                    hop.start_progr as int
                },
            ),
            point_at(
                shapes.last(),
                if hop.end_progr > 1_000_000_000 {
                    1_000_000_000
                } else {
                    hop.end_progr as int
                },
            ),
        ),
{
    lemma_only_edges(
        out,
        shapes,
        clamped(hop.start_progr),
        clamped(hop.end_progr),
        shapes.len() as int,
    );
}

/// A hop without edges is drawn as a straight line from where it begins to where it ends.
pub proof fn lemma_hop_is_straight(
    out: Seq<Point>,
    hop: EdgeHop,
    start_shape: Option<EdgeShape>,
    end_shape: Option<EdgeShape>,
)
    ensures
        ({
            let drawn = with_hop(out, hop, Seq::empty(), start_shape, end_shape);
            let a = match start_shape {
                Some(s) => Some(
                    point_at(
                        s,
                        if hop.start_progr > 1_000_000_000 {
                            1_000_000_000
                        } else {
                            hop.start_progr as int
                        },
                    ),
                ),
                None => hop.start_point,
            };
            let b = match end_shape {
                Some(s) => Some(
                    point_at(
                        s,
                        if hop.end_progr > 1_000_000_000 {
                            1_000_000_000
                        } else {
                            hop.end_progr as int
                        },
                    ),
                ),
                None => hop.end_point,
            };
            &&& begins_with(drawn, out)
            &&& drawn.len() <= out.len() + 2
            &&& b matches Some(q) ==> drawn.len() > 0 && drawn.last() == q
            &&& a matches Some(p) ==> (out.len() > 0 && out.last() == p) || (drawn.len() > out.len()
                && drawn[out.len() as int] == p)
            &&& a is None && b is None ==> drawn == out
        }),
{
}

} // verus!
