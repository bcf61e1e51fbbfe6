//! Square tiles of the map, and the tiles that a route needs.

use crate::geometry::Point;
use crate::hashed::{tiles_insert, tiles_into_vec, tiles_new, tiles_of, TileSet};
use vstd::prelude::*;

verus! {

/// The side of a tile, in units of a ten-millionth of a degree.
pub const TILE_SIZE: i32 = 2_000_000;

/// The column and the row of a tile.
#[derive(Debug, Clone, Copy, PartialEq, Eq, Hash, Structural)]
pub struct TileCoord {
    pub x: i32,
    pub y: i32,
}

/// The tile of a size in which a point lies.
pub open spec fn tile_of(p: Point, size: int) -> TileCoord {
    TileCoord { x: (p.x as int / size) as i32, y: (p.y as int / size) as i32 }
}

/// The tile in which a point lies.
pub open spec fn tile_at(p: Point) -> TileCoord {
    tile_of(p, 2_000_000)
}

/// The tile of a size in which a point lies.
pub(crate) fn tile_containing(p: Point, size: i32) -> (r: TileCoord)
    requires
        size >= TILE_SIZE,
    ensures
        r == tile_of(p, size as int),
        -1074 <= r.x <= 1073,
        -1074 <= r.y <= 1073,
{
    proof {
        lemma_tile_range(p.x as int, size as int);
        lemma_tile_range(p.y as int, size as int);
    }
    let x: i64 = floor_div(p.x as i64, size as i64);
    let y: i64 = floor_div(p.y as i64, size as i64);
    TileCoord { x: x as i32, y: y as i32 }
}

proof fn lemma_tile_range(a: int, size: int)
    requires
        -0x8000_0000 <= a <= 0x7fff_ffff,
        size >= 2_000_000,
    ensures
        -1074 <= a / size <= 1073,
{
    assert(-1074 <= a / size <= 1073) by (nonlinear_arith)
        requires
            -0x8000_0000 <= a <= 0x7fff_ffff,
            size >= 2_000_000,
    ;
}

/// A quotient, rounded down.
fn floor_div(a: i64, b: i64) -> (r: i64)
    requires
        0 < b <= 0x7fff_ffff_ffff,
        -0x7fff_ffff_ffff_ffff <= a,
        a - b > i64::MIN,
    ensures
        r == a as int / b as int,
{
    if a >= 0 {
        a / b
    } else {
        let m: i64 = -a;
        let q: i64 = (m - 1) / b;
        proof {
            assert(a as int / b as int == -(q as int) - 1) by (nonlinear_arith)
                requires
                    a < 0,
                    b > 0,
                    m == -a,
                    q == (m - 1) / (b as int),
            ;
            assert(q <= m - 1) by (nonlinear_arith)
                requires
                    m >= 1,
                    b >= 1,
                    q == (m - 1) / (b as int),
            ;
        }
        -q - 1
    }
}

impl TileCoord {
    /// Whether the tile has tiles on all sides.
    pub open spec fn inner(self) -> bool {
        i32::MIN < self.x < i32::MAX && i32::MIN < self.y < i32::MAX
    }

    pub open spec fn shift(self, dx: int, dy: int) -> TileCoord {
        TileCoord { x: (self.x + dx) as i32, y: (self.y + dy) as i32 }
    }

    /// The tile and the eight around it.
    pub open spec fn block(self) -> Seq<TileCoord> {
        seq![
            self,
            self.shift(-1, -1),
            self.shift(0, -1),
            self.shift(1, -1),
            self.shift(-1, 0),
            self.shift(1, 0),
            self.shift(-1, 1),
            self.shift(0, 1),
            self.shift(1, 1),
        ]
    }

    /// The tile and the four beside it.
    pub open spec fn cross(self) -> Seq<TileCoord> {
        seq![self, self.shift(-1, 0), self.shift(1, 0), self.shift(0, -1), self.shift(0, 1)]
    }

    /// The tile in which a point lies.
    pub fn from_point(p: Point) -> (r: Self)
        ensures
            r == tile_at(p),
            -1074 <= r.x <= 1073,
            -1074 <= r.y <= 1073,
    {
        tile_containing(p, TILE_SIZE)
    }

    /// The tile and the eight around it.
    pub fn with_neighbors(&self) -> (r: [TileCoord; 9])
        requires
            self.inner(),
        ensures
            r@ == self.block(),
    {
        let r = [
            *self,
            TileCoord { x: self.x - 1, y: self.y - 1 },
            TileCoord { x: self.x, y: self.y - 1 },
            TileCoord { x: self.x + 1, y: self.y - 1 },
            TileCoord { x: self.x - 1, y: self.y },
            TileCoord { x: self.x + 1, y: self.y },
            TileCoord { x: self.x - 1, y: self.y + 1 },
            TileCoord { x: self.x, y: self.y + 1 },
            TileCoord { x: self.x + 1, y: self.y + 1 },
        ];
        assert(r@ =~= self.block());
        r
    }
}

/// The tile and the four beside it.
pub fn cross_neighbors(t: TileCoord) -> (r: [TileCoord; 5])
    requires
        t.inner(),
    ensures
        r@ == t.cross(),
{
    let r = [
        t,
        TileCoord { x: t.x - 1, y: t.y },
        TileCoord { x: t.x + 1, y: t.y },
        TileCoord { x: t.x, y: t.y - 1 },
        TileCoord { x: t.x, y: t.y + 1 },
    ];
    assert(r@ =~= t.cross());
    r
}

/// A list with what occurs again left out.
pub open spec fn once(s: Seq<TileCoord>) -> Seq<TileCoord>
    decreases s.len(),
{
    if s.len() == 0 {
        Seq::empty()
    } else {
        let rest = once(s.drop_last());
        if rest.contains(s.last()) {
            rest
        } else {
            rest.push(s.last())
        }
    }
}

/// The tiles beside those of a list, with them, one list after the other.
pub open spec fn crosses(s: Seq<TileCoord>) -> Seq<TileCoord>
    decreases s.len(),
{
    if s.len() == 0 {
        Seq::empty()
    } else {
        crosses(s.drop_last()) + s.last().cross()
    }
}

pub open spec fn abs_diff(a: int, b: int) -> int {
    if a < b {
        b - a
    } else {
        a - b
    }
}

/// Into how many steps the line between two points is cut: two for each tile that lies between them.
pub open spec fn steps_between(p1: Point, p2: Point, size: int) -> int {
    let dx = abs_diff(tile_of(p1, size).x as int, tile_of(p2, size).x as int);
    let dy = abs_diff(tile_of(p1, size).y as int, tile_of(p2, size).y as int);
    ((if dx > dy {
        dx
    } else {
        dy
    }) + 1) * 2
}

/// The tile in which the line between two points is after `i` of `steps` equal steps.
pub open spec fn tile_on_line(
    p1: Point,
    p2: Point,
    i: int,
    steps: int,
    size: int,
) -> TileCoord {
    TileCoord {
        x: ((p1.x * steps + i * (p2.x - p1.x)) / (steps * size)) as i32,
        y: ((p1.y * steps + i * (p2.y - p1.y)) / (steps * size)) as i32,
    }
}

/// The tiles in which the line between two points is after each step.
pub open spec fn tiles_on_line(p1: Point, p2: Point, size: int) -> Seq<TileCoord> {
    Seq::new(
        (steps_between(p1, p2, size) + 1) as nat,
        |i: int| tile_on_line(p1, p2, i, steps_between(p1, p2, size), size),
    )
}

/// The tiles of a size along the line between two points, with those beside them.
pub open spec fn corridor_of(p1: Point, p2: Point, size: int) -> Seq<TileCoord> {
    if tile_of(p1, size) == tile_of(p2, size) {
        tile_of(p1, size).cross()
    } else {
        once(crosses(once(tiles_on_line(p1, p2, size))))
    }
}

/// The tiles along the line between two points, with those beside them.
pub open spec fn corridor(p1: Point, p2: Point) -> Seq<TileCoord> {
    corridor_of(p1, p2, 2_000_000)
}

/// Appends a tile unless it is there.
fn push_once(list: &mut Vec<TileCoord>, seen: &mut TileSet, t: TileCoord)
    requires
        forall|u: TileCoord| #[trigger]
            old(list)@.contains(u) <==> tiles_of(*old(seen)).contains((u.x, u.y)),
    ensures
        final(list)@ == (if old(list)@.contains(t) {
            old(list)@
        } else {
            old(list)@.push(t)
        }),
        forall|u: TileCoord| #[trigger]
            final(list)@.contains(u) <==> tiles_of(*final(seen)).contains((u.x, u.y)),
{
    let ghost l0 = list@;
    assert(l0.contains(t) <==> tiles_of(*seen).contains((t.x, t.y)));
    if tiles_insert(seen, (t.x, t.y)) {
        list.push(t);
    }
    proof {
        assert forall|u: TileCoord| #[trigger] list@.contains(u) <==> tiles_of(*seen).contains(
            (u.x, u.y),
        ) by {
            assert(l0.contains(u) <==> tiles_of(*old(seen)).contains((u.x, u.y)));
            if l0.contains(u) {
                let k = choose|k: int| 0 <= k < l0.len() && l0[k] == u;
                assert(list@[k] == u);
            }
            if u == t {
                if !l0.contains(t) {
                    assert(list@[l0.len() as int] == t);
                }
            }
            if list@.contains(u) && u != t {
                let k = choose|k: int| 0 <= k < list@.len() && list@[k] == u;
                assert(l0[k] == u);
            }
        }
    }
}

proof fn lemma_once_step(s: Seq<TileCoord>, i: int)
    requires
        0 <= i < s.len(),
    ensures
        once(s.take(i + 1)) == (if once(s.take(i)).contains(s[i]) {
            once(s.take(i))
        } else {
            once(s.take(i)).push(s[i])
        }),
{
    assert(s.take(i + 1).drop_last() =~= s.take(i));
}

fn line_tile(p1: Point, p2: Point, i: i64, steps: i64, size: i32) -> (r: TileCoord)
    requires
        0 <= i <= steps,
        0 < steps <= 4300,
        size >= TILE_SIZE,
    ensures
        r == tile_on_line(p1, p2, i as int, steps as int, size as int),
        -1075 <= r.x <= 1074,
        -1075 <= r.y <= 1074,
{
    assert(0 < steps * size <= 4300 * 0x7fff_ffff) by (nonlinear_arith)
        requires
            0 < steps <= 4300,
            0 < size <= 0x7fff_ffff,
    ;
    let d: i64 = steps * (size as i64);
    proof {
        lemma_sample_range(p1.x as int, p2.x as int, i as int, steps as int, size as int);
        lemma_sample_range(p1.y as int, p2.y as int, i as int, steps as int, size as int);
    }
    let ax: i64 = (p1.x as i64) * steps + i * ((p2.x as i64) - (p1.x as i64));
    let ay: i64 = (p1.y as i64) * steps + i * ((p2.y as i64) - (p1.y as i64));
    TileCoord { x: floor_div(ax, d) as i32, y: floor_div(ay, d) as i32 }
}

/// A point on a line lies between its ends.
proof fn lemma_sample_range(a: int, b: int, i: int, steps: int, size: int)
    requires
        -0x8000_0000 <= a <= 0x7fff_ffff,
        -0x8000_0000 <= b <= 0x7fff_ffff,
        0 <= i <= steps,
        0 < steps <= 4300,
        size >= 2_000_000,
    ensures
        -0x8000_0000 * steps <= a * steps + i * (b - a) <= 0x7fff_ffff * steps,
        -0x1_0000_0000 * 4300 <= i * (b - a) <= 0x1_0000_0000 * 4300,
        -0x8000_0000 * 4300 <= a * steps <= 0x8000_0000 * 4300,
        -1075 <= (a * steps + i * (b - a)) / (steps * size) <= 1074,
{
    assert(a * steps + i * (b - a) == a * (steps - i) + i * b) by (nonlinear_arith);
    assert(-0x8000_0000 * (steps - i) <= a * (steps - i) <= 0x7fff_ffff * (steps - i))
        by (nonlinear_arith)
        requires
            -0x8000_0000 <= a <= 0x7fff_ffff,
            0 <= steps - i,
    ;
    assert(-0x8000_0000 * i <= i * b <= 0x7fff_ffff * i) by (nonlinear_arith)
        requires
            -0x8000_0000 <= b <= 0x7fff_ffff,
            0 <= i,
    ;
    assert(-0x1_0000_0000 * 4300 <= i * (b - a) <= 0x1_0000_0000 * 4300) by (nonlinear_arith)
        requires
            -0x1_0000_0000 <= b - a <= 0x1_0000_0000,
            0 <= i <= 4300,
    ;
    assert(-0x8000_0000 * 4300 <= a * steps <= 0x8000_0000 * 4300) by (nonlinear_arith)
        requires
            -0x8000_0000 <= a <= 0x7fff_ffff,
            0 <= steps <= 4300,
    ;
    let n = a * steps + i * (b - a);
    let d = steps * size;
    assert(-1075 <= n / d <= 1074) by (nonlinear_arith)
        requires
            -0x8000_0000 * steps <= n <= 0x7fff_ffff * steps,
            d == steps * size,
            steps > 0,
            size >= 2_000_000,
    ;
}

/// The tiles along the line between two points, with those beside them, each once.
pub fn compute_corridor_tiles(p1: Point, p2: Point) -> (r: Vec<TileCoord>)
    ensures
        r@ == corridor(p1, p2),
{
    corridor_tiles(p1, p2, TILE_SIZE)
}

/// The tiles of a size along the line between two points, with those beside them, each once.
pub(crate) fn corridor_tiles(p1: Point, p2: Point, size: i32) -> (r: Vec<TileCoord>)
    requires
        size >= TILE_SIZE,
    ensures
        r@ == corridor_of(p1, p2, size as int),
{
    let t1 = tile_containing(p1, size);
    let t2 = tile_containing(p2, size);
    if t1 == t2 {
        let c = cross_neighbors(t1);
        let mut r: Vec<TileCoord> = Vec::new();
        let mut k: usize = 0;
        while k < 5
            invariant
                k <= 5,
                c@ == t1.cross(),
                r@ == t1.cross().take(k as int),
            decreases 5 - k,
        {
            r.push(c[k]);
            assert(r@ =~= t1.cross().take(k + 1));
            k = k + 1;
        }
        assert(t1.cross().take(5) =~= t1.cross());
        return r;
    }
    let dx: i32 = if t1.x < t2.x {
        t2.x - t1.x
    } else {
        t1.x - t2.x
    };
    let dy: i32 = if t1.y < t2.y {
        t2.y - t1.y
    } else {
        t1.y - t2.y
    };
    let steps: i64 = ((if dx > dy {
        dx
    } else {
        dy
    }) as i64 + 1) * 2;
    let ghost line = tiles_on_line(p1, p2, size as int);
    let mut tiles: Vec<TileCoord> = Vec::new();
    let mut visited = tiles_new();
    let mut i: i64 = 0;
    assert(line.take(0) =~= Seq::<TileCoord>::empty());
    while i <= steps
        invariant
            0 <= i <= steps + 1,
            0 < steps <= 4300,
            size >= TILE_SIZE,
            steps == steps_between(p1, p2, size as int),
            line == tiles_on_line(p1, p2, size as int),
            tiles@ == once(line.take(i as int)),
            forall|u: TileCoord| #[trigger]
                tiles@.contains(u) <==> tiles_of(visited).contains((u.x, u.y)),
            forall|k: int|
                #![trigger tiles@[k]]
                0 <= k < tiles@.len() ==> tiles@[k].inner(),
        decreases steps + 1 - i,
    {
        let t = line_tile(p1, p2, i, steps, size);
        let ghost before = tiles@;
        proof {
            assert(line[i as int] == t);
            lemma_once_step(line, i as int);
        }
        push_once(&mut tiles, &mut visited, t);
        proof {
            assert forall|k: int| #![trigger tiles@[k]] 0 <= k < tiles@.len() implies tiles@[k].inner() by {
                if k < before.len() {
                    assert(tiles@[k] == before[k]);
                }
            }
        }
        i = i + 1;
    }
    assert(line.take(i as int) =~= line);
    let mut result: Vec<TileCoord> = Vec::new();
    let mut seen = tiles_new();
    let mut j: usize = 0;
    assert(tiles@.take(0) =~= Seq::<TileCoord>::empty());
    while j < tiles.len()
        invariant
            j <= tiles@.len(),
            forall|k: int|
                #![trigger tiles@[k]]
                0 <= k < tiles@.len() ==> tiles@[k].inner(),
            result@ == once(crosses(tiles@.take(j as int))),
            forall|u: TileCoord| #[trigger]
                result@.contains(u) <==> tiles_of(seen).contains((u.x, u.y)),
        decreases tiles@.len() - j,
    {
        let c = cross_neighbors(tiles[j]);
        let ghost base = crosses(tiles@.take(j as int));
        let ghost all = crosses(tiles@.take(j + 1));
        proof {
            assert(tiles@.take(j + 1).drop_last() =~= tiles@.take(j as int));
            assert(all == base + c@);
            assert(all.take(base.len() as int) =~= base);
        }
        let mut k: usize = 0;
        while k < 5
            invariant
                k <= 5,
                all == base + c@,
                result@ == once(all.take(base.len() + k)),
                forall|u: TileCoord| #[trigger]
                    result@.contains(u) <==> tiles_of(seen).contains((u.x, u.y)),
            decreases 5 - k,
        {
            proof {
                assert(all[base.len() + k] == c@[k as int]);
                lemma_once_step(all, base.len() + k);
            }
            push_once(&mut result, &mut seen, c[k]);
            k = k + 1;
        }
        assert(all.take((base.len() + 5) as int) =~= all);
        j = j + 1;
    }
    assert(tiles@.take(j as int) =~= tiles@);
    result
}

/// Nothing occurs twice, and nothing gets lost.
pub proof fn lemma_once(s: Seq<TileCoord>)
    ensures
        once(s).no_duplicates(),
        forall|t: TileCoord| #[trigger] once(s).contains(t) <==> s.contains(t),
    decreases s.len(),
{
    if s.len() > 0 {
        lemma_once(s.drop_last());
        let rest = once(s.drop_last());
        let all = once(s);
        let p = s.drop_last();
        assert forall|t: TileCoord| #[trigger] all.contains(t) <==> s.contains(t) by {
            if s.contains(t) {
                let k = choose|k: int| 0 <= k < s.len() && s[k] == t;
                if k < p.len() {
                    assert(p[k] == t);
                    assert(rest.contains(t));
                    let m = choose|m: int| 0 <= m < rest.len() && rest[m] == t;
                    assert(all[m] == t);
                } else if rest.contains(t) {
                } else {
                    assert(all[rest.len() as int] == t);
                }
            }
            if all.contains(t) {
                let k = choose|k: int| 0 <= k < all.len() && all[k] == t;
                if k < rest.len() {
                    assert(rest[k] == t);
                    assert(rest.contains(t));
                    assert(p.contains(t));
                    let m = choose|m: int| 0 <= m < p.len() && p[m] == t;
                    assert(s[m] == t);
                } else {
                    assert(s[s.len() - 1] == t);
                }
            }
        }
        assert forall|i: int, j: int| 0 <= i < all.len() && 0 <= j < all.len() && i != j implies all[i]
            != all[j] by {
            if i < rest.len() {
                assert(rest.contains(rest[i]));
            }
            if j < rest.len() {
                assert(rest.contains(rest[j]));
            }
        }
    }
}

/// Every tile of a list is among those beside its tiles.
proof fn lemma_crosses(s: Seq<TileCoord>, k: int)
    requires
        0 <= k < s.len(),
    ensures
        crosses(s).contains(s[k]),
    decreases s.len(),
{
    let base = crosses(s.drop_last());
    if k < s.len() - 1 {
        lemma_crosses(s.drop_last(), k);
        let m = choose|m: int| 0 <= m < base.len() && base[m] == s[k];
        assert(crosses(s)[m] == s[k]);
    } else {
        assert(crosses(s)[base.len() as int] == s[k]);
    }
}

/// A corridor holds no tile twice, and it holds the tiles of both its ends, whatever size the tiles
/// have.
pub proof fn lemma_corridor(p1: Point, p2: Point, size: int)
    requires
        size > 1,
    ensures
        corridor_of(p1, p2, size).no_duplicates(),
        corridor_of(p1, p2, size).contains(tile_of(p1, size)),
        corridor_of(p1, p2, size).contains(tile_of(p2, size)),
{
    let t1 = tile_of(p1, size);
    let t2 = tile_of(p2, size);
    if t1 == t2 {
        lemma_halved(p1.x as int, size);
        lemma_halved(p1.y as int, size);
        assert(t1.cross()[0] == t1);
    } else {
        let steps = steps_between(p1, p2, size);
        let line = tiles_on_line(p1, p2, size);
        assert(steps > 0);
        lemma_ends(p1.x as int, p2.x as int, steps, size);
        lemma_ends(p1.y as int, p2.y as int, steps, size);
        assert(line[0] == t1);
        assert(line[steps] == t2);
        let tiles = once(line);
        lemma_once(line);
        lemma_once(crosses(tiles));
        assert(tiles.contains(t1) && tiles.contains(t2));
        let a = choose|a: int| 0 <= a < tiles.len() && tiles[a] == t1;
        let b = choose|b: int| 0 <= b < tiles.len() && tiles[b] == t2;
        lemma_crosses(tiles, a);
        lemma_crosses(tiles, b);
    }
}

proof fn lemma_halved(a: int, size: int)
    requires
        -0x8000_0000 <= a <= 0x7fff_ffff,
        size > 1,
    ensures
        -0x4000_0000 <= a / size <= 0x3fff_ffff,
{
    assert(-0x4000_0000 <= a / size <= 0x3fff_ffff) by (nonlinear_arith)
        requires
            -0x8000_0000 <= a <= 0x7fff_ffff,
            size > 1,
    ;
}

proof fn lemma_ends(a: int, b: int, steps: int, size: int)
    requires
        steps > 0,
        size > 0,
    ensures
        (a * steps + 0 * (b - a)) / (steps * size) == a / size,
        (a * steps + steps * (b - a)) / (steps * size) == b / size,
{
    assert(a * steps + steps * (b - a) == b * steps) by (nonlinear_arith);
    lemma_scaled(a, steps, size);
    lemma_scaled(b, steps, size);
}

proof fn lemma_scaled(a: int, steps: int, size: int)
    requires
        steps > 0,
        size > 0,
    ensures
        (a * steps) / (steps * size) == a / size,
{
    let q = a / size;
    let r = a % size;
    vstd::arithmetic::div_mod::lemma_fundamental_div_mod(a, size);
    vstd::arithmetic::div_mod::lemma_mod_bound(a, size);
    assert(a * steps == (steps * size) * q + r * steps) by (nonlinear_arith)
        requires
            a == size * q + r,
    ;
    assert(0 <= r * steps < steps * size) by (nonlinear_arith)
        requires
            0 <= r < size,
            steps > 0,
    ;
    vstd::arithmetic::div_mod::lemma_fundamental_div_mod_converse(
        a * steps,
        steps * size,
        q,
        r * steps,
    );
}

/// The tile of a size in which the straight line from one point to another is after `n` parts of `m`.
pub open spec fn line_passes(p1: Point, p2: Point, n: int, m: int, size: int) -> TileCoord {
    TileCoord {
        x: ((p1.x * (m - n) + p2.x * n) / (m * size)) as i32,
        y: ((p1.y * (m - n) + p2.y * n) / (m * size)) as i32,
    }
}

/// Whether two tiles are the same or have a side in common.
pub open spec fn are_beside(s: TileCoord, t: TileCoord) -> bool {
    abs_diff(s.x as int, t.x as int) + abs_diff(s.y as int, t.y as int) <= 1
}

/// Fractions in order have their whole parts in order.
proof fn lemma_floor_order(p: int, q: int, r: int, s: int)
    requires
        q > 0,
        s > 0,
        p * s <= r * q,
    ensures
        p / q <= r / s,
{
    let f = p / q;
    let g = r / s;
    assert(f * q <= p) by (nonlinear_arith)
        requires
            f == p / q,
            q > 0,
    ;
    assert(r < (g + 1) * s) by (nonlinear_arith)
        requires
            g == r / s,
            s > 0,
    ;
    assert(f < g + 1) by (nonlinear_arith)
        requires
            f * q <= p,
            p * s <= r * q,
            r < (g + 1) * s,
            q > 0,
            s > 0,
    ;
}

proof fn lemma_steps_differ(a: int, d: int, steps: int, i: int, n: int, m: int)
    ensures
        steps * (a * m + n * d) - m * (a * steps + i * d) == (n * steps - i * m) * d,
{
    assert(steps * (a * m + n * d) == a * (m * steps) + (n * steps) * d) by (nonlinear_arith);
    assert(m * (a * steps + i * d) == a * (m * steps) + (i * m) * d) by (nonlinear_arith);
    assert((n * steps - i * m) * d == (n * steps) * d - (i * m) * d) by (nonlinear_arith);
}

/// One coordinate of a line between two points at equal steps: anything between two steps in a row lies
/// in the tile of one of them, and these are the same or next to each other.
proof fn lemma_axis(a: int, b: int, steps: int, size: int, i: int, n: int, m: int)
    requires
        size > 1,
        -0x8000_0000 <= a <= 0x7fff_ffff,
        -0x8000_0000 <= b <= 0x7fff_ffff,
        steps >= abs_diff(a / size, b / size) + 1,
        0 <= i < steps,
        0 <= n <= m,
        m > 0,
        i * m <= n * steps <= (i + 1) * m,
    ensures
        ({
            let u = (a * steps + i * (b - a)) / (steps * size);
            let v = (a * steps + (i + 1) * (b - a)) / (steps * size);
            let x = (a * (m - n) + b * n) / (m * size);
            &&& x == u || x == v
            &&& abs_diff(u, v) <= 1
            &&& -0x4000_0000 <= u < 0x4000_0000
            &&& -0x4000_0000 <= v < 0x4000_0000
        }),
{
    let d = b - a;
    let p = a * steps + i * d;
    let q = a * steps + (i + 1) * d;
    let r = a * (m - n) + b * n;
    let w = steps * size;
    let z = m * size;
    let u = p / w;
    let v = q / w;
    let x = r / z;
    assert(w > 0 && z > 0) by (nonlinear_arith)
        requires
            steps > 0,
            size > 1,
            m > 0,
            w == steps * size,
            z == m * size,
    ;
    assert(q == p + d) by (nonlinear_arith)
        requires
            p == a * steps + i * d,
            q == a * steps + (i + 1) * d,
    ;
    assert(r == a * m + n * d) by (nonlinear_arith)
        requires
            r == a * (m - n) + b * n,
            d == b - a,
    ;
    // The numerators, over the same denominator.
    let k = n * steps - i * m;
    let l = (i + 1) * m - n * steps;
    lemma_steps_differ(a, d, steps, i, n, m);
    lemma_steps_differ(a, d, steps, i + 1, n, m);
    assert(r * w == size * (steps * r)) by (nonlinear_arith)
        requires
            w == steps * size,
    ;
    assert(p * z == size * (m * p)) by (nonlinear_arith)
        requires
            z == m * size,
    ;
    assert(q * z == size * (m * q)) by (nonlinear_arith)
        requires
            z == m * size,
    ;
    assert(r * w - p * z == size * (k * d)) by (nonlinear_arith)
        requires
            r * w == size * (steps * r),
            p * z == size * (m * p),
            steps * r - m * p == k * d,
    ;
    assert((n * steps - (i + 1) * m) * d == -(l * d)) by (nonlinear_arith)
        requires
            l == (i + 1) * m - n * steps,
    ;
    assert(q * z - r * w == size * (l * d)) by (nonlinear_arith)
        requires
            r * w == size * (steps * r),
            q * z == size * (m * q),
            m * q - steps * r == l * d,
    ;
    let fa = a / size;
    let fb = b / size;
    assert(fa * size <= a < (fa + 1) * size && fb * size <= b < (fb + 1) * size) by (nonlinear_arith)
        requires
            fa == a / size,
            fb == b / size,
            size > 1,
    ;
    assert(-w <= d <= w) by (nonlinear_arith)
        requires
            fa * size <= a < (fa + 1) * size,
            fb * size <= b < (fb + 1) * size,
            d == b - a,
            w == steps * size,
            size > 1,
            steps >= fa - fb + 1,
            steps >= fb - fa + 1,
    ;
    assert(v <= u + 1 && u <= v + 1) by (nonlinear_arith)
        requires
            u == p / w,
            v == q / w,
            q == p + d,
            -w <= d <= w,
            w > 0,
    ;
    if d >= 0 {
        assert(size * (k * d) >= 0 && size * (l * d) >= 0) by (nonlinear_arith)
            requires
                size > 1,
                k >= 0,
                l >= 0,
                d >= 0,
        ;
        lemma_floor_order(p, w, r, z);
        lemma_floor_order(r, z, q, w);
    } else {
        assert(size * (k * d) <= 0 && size * (l * d) <= 0) by (nonlinear_arith)
            requires
                size > 1,
                k >= 0,
                l >= 0,
                d < 0,
        ;
        lemma_floor_order(r, z, p, w);
        lemma_floor_order(q, w, r, z);
    }
    assert(-0x8000_0000 * steps <= p <= 0x7fff_ffff * steps) by (nonlinear_arith)
        requires
            p == a * steps + i * d,
            d == b - a,
            0 <= i < steps,
            -0x8000_0000 <= a <= 0x7fff_ffff,
            -0x8000_0000 <= b <= 0x7fff_ffff,
    {
        assert(p == a * (steps - i) + i * b);
        assert(a * (steps - i) >= -0x8000_0000 * (steps - i));
        assert(a * (steps - i) <= 0x7fff_ffff * (steps - i));
        assert(i * b >= i * -0x8000_0000);
        assert(i * b <= i * 0x7fff_ffff);
    }
    assert(-0x8000_0000 * steps <= q <= 0x7fff_ffff * steps) by (nonlinear_arith)
        requires
            q == a * steps + (i + 1) * d,
            d == b - a,
            0 <= i < steps,
            -0x8000_0000 <= a <= 0x7fff_ffff,
            -0x8000_0000 <= b <= 0x7fff_ffff,
    {
        let j = i + 1;
        assert(q == a * (steps - j) + j * b);
        assert(a * (steps - j) >= -0x8000_0000 * (steps - j));
        assert(a * (steps - j) <= 0x7fff_ffff * (steps - j));
        assert(j * b >= j * -0x8000_0000);
        assert(j * b <= j * 0x7fff_ffff);
    }
    lemma_within(p, steps, size);
    lemma_within(q, steps, size);
}

proof fn lemma_within(p: int, steps: int, size: int)
    requires
        steps > 0,
        size > 1,
        -0x8000_0000 * steps <= p <= 0x7fff_ffff * steps,
    ensures
        -0x4000_0000 <= p / (steps * size) < 0x4000_0000,
{
    let w = steps * size;
    assert(w >= 2 * steps && w > 0) by (nonlinear_arith)
        requires
            steps > 0,
            size > 1,
            w == steps * size,
    ;
    let f = p / w;
    assert(f * w <= p < (f + 1) * w) by (nonlinear_arith)
        requires
            f == p / w,
            w > 0,
    ;
    assert(-0x4000_0000 <= f < 0x4000_0000) by (nonlinear_arith)
        requires
            f * w <= p < (f + 1) * w,
            w >= 2 * steps,
            steps > 0,
            -0x8000_0000 * steps <= p <= 0x7fff_ffff * steps,
    ;
}

/// A coordinate between two others lies in a tile between theirs.
proof fn lemma_axis_between(a: int, b: int, size: int, n: int, m: int)
    requires
        size > 1,
        0 <= n <= m,
        m > 0,
    ensures
        ({
            let x = (a * (m - n) + b * n) / (m * size);
            &&& a <= b ==> a / size <= x <= b / size
            &&& b <= a ==> b / size <= x <= a / size
        }),
{
    let r = a * (m - n) + b * n;
    let z = m * size;
    assert(z > 0) by (nonlinear_arith)
        requires
            m > 0,
            size > 1,
            z == m * size,
    ;
    let k = n * (b - a);
    let l = (m - n) * (b - a);
    assert(r * size - a * z == size * k) by (nonlinear_arith)
        requires
            r == a * (m - n) + b * n,
            z == m * size,
            k == n * (b - a),
    ;
    assert(b * z - r * size == size * l) by (nonlinear_arith)
        requires
            r == a * (m - n) + b * n,
            z == m * size,
            l == (m - n) * (b - a),
    ;
    if a <= b {
        assert(size * k >= 0 && size * l >= 0) by (nonlinear_arith)
            requires
                size > 1,
                k == n * (b - a),
                l == (m - n) * (b - a),
                0 <= n <= m,
                a <= b,
        ;
        lemma_floor_order(a, size, r, z);
        lemma_floor_order(r, z, b, size);
    }
    if b <= a {
        assert(size * k <= 0 && size * l <= 0) by (nonlinear_arith)
            requires
                size > 1,
                k == n * (b - a),
                l == (m - n) * (b - a),
                0 <= n <= m,
                b <= a,
        ;
        lemma_floor_order(r, z, a, size);
        lemma_floor_order(b, size, r, z);
    }
}

proof fn lemma_crosses_contain(s: Seq<TileCoord>, k: int, t: TileCoord)
    requires
        0 <= k < s.len(),
        s[k].cross().contains(t),
    ensures
        crosses(s).contains(t),
    decreases s.len(),
{
    let base = crosses(s.drop_last());
    if k < s.len() - 1 {
        lemma_crosses_contain(s.drop_last(), k, t);
        let m = choose|m: int| 0 <= m < base.len() && base[m] == t;
        assert(crosses(s)[m] == t);
    } else {
        let c = s.last().cross();
        let m = choose|m: int| 0 <= m < c.len() && c[m] == t;
        assert(crosses(s)[base.len() + m] == t);
    }
}

proof fn lemma_crosses_only(s: Seq<TileCoord>, t: TileCoord) -> (k: int)
    requires
        crosses(s).contains(t),
    ensures
        0 <= k < s.len(),
        s[k].cross().contains(t),
    decreases s.len(),
{
    let base = crosses(s.drop_last());
    let m = choose|m: int| 0 <= m < crosses(s).len() && crosses(s)[m] == t;
    if m < base.len() {
        assert(base[m] == t);
        lemma_crosses_only(s.drop_last(), t)
    } else {
        assert(s.last().cross()[m - base.len()] == t);
        s.len() - 1
    }
}

/// A corridor has no gaps: it holds every tile that the straight line between its ends passes, whatever
/// size the tiles have.
pub proof fn lemma_corridor_has_no_gaps(p1: Point, p2: Point, size: int, n: int, m: int)
    requires
        size > 1,
        0 <= n <= m,
        m > 0,
    ensures
        corridor_of(p1, p2, size).contains(line_passes(p1, p2, n, m, size)),
{
    let t1 = tile_of(p1, size);
    let t2 = tile_of(p2, size);
    let t = line_passes(p1, p2, n, m, size);
    lemma_halved(p1.x as int, size);
    lemma_halved(p1.y as int, size);
    lemma_halved(p2.x as int, size);
    lemma_halved(p2.y as int, size);
    if t1 == t2 {
        lemma_axis_between(p1.x as int, p2.x as int, size, n, m);
        lemma_axis_between(p1.y as int, p2.y as int, size, n, m);
        assert(t == t1);
        assert(t1.cross()[0] == t);
    } else {
        let steps = steps_between(p1, p2, size);
        let line = tiles_on_line(p1, p2, size);
        let tiles = once(line);
        lemma_once(line);
        lemma_once(crosses(tiles));
        let i = if n == m {
            steps - 1
        } else {
            (n * steps) / m
        };
        assert(0 <= i < steps && i * m <= n * steps <= (i + 1) * m) by (nonlinear_arith)
            requires
                0 <= n <= m,
                m > 0,
                steps > 0,
                i == (if n == m {
                    steps - 1
                } else {
                    (n * steps) / m
                }),
        ;
        lemma_axis(p1.x as int, p2.x as int, steps, size, i, n, m);
        lemma_axis(p1.y as int, p2.y as int, steps, size, i, n, m);
        let a = line[i];
        let b = line[i + 1];
        assert(t == a || t == b || t == (TileCoord { x: b.x, y: a.y }) || t == (TileCoord {
            x: a.x,
            y: b.y,
        }));
        let c = a.cross();
        assert(c[0] == a);
        assert(b.cross()[0] == b);
        assert(c[1] == a.shift(-1, 0) && c[2] == a.shift(1, 0) && c[3] == a.shift(0, -1) && c[4]
            == a.shift(0, 1));
        let near = if c.contains(t) {
            a
        } else {
            b
        };
        assert(near.cross().contains(t)) by {
            if !c.contains(t) {
                assert(t == b);
            }
        }
        assert(line.contains(near)) by {
            assert(line[i] == a && line[i + 1] == b);
        }
        assert(tiles.contains(near));
        let k = choose|k: int| 0 <= k < tiles.len() && tiles[k] == near;
        lemma_crosses_contain(tiles, k, t);
    }
}

/// A corridor holds nothing else: each of its tiles is one that the straight line between its ends passes,
/// or is beside one.
pub proof fn lemma_corridor_is_narrow(p1: Point, p2: Point, size: int, t: TileCoord) -> (r: (int, int))
    requires
        size > 1,
        corridor_of(p1, p2, size).contains(t),
    ensures
        0 <= r.0 <= r.1,
        r.1 > 0,
        are_beside(line_passes(p1, p2, r.0, r.1, size), t),
{
    let t1 = tile_of(p1, size);
    let t2 = tile_of(p2, size);
    lemma_halved(p1.x as int, size);
    lemma_halved(p1.y as int, size);
    lemma_halved(p2.x as int, size);
    lemma_halved(p2.y as int, size);
    if t1 == t2 {
        assert(line_passes(p1, p2, 0, 1, size) == t1) by {
            assert(p1.x * (1 - 0) + p2.x * 0 == p1.x);
            assert(p1.y * (1 - 0) + p2.y * 0 == p1.y);
        }
        (0, 1)
    } else {
        let steps = steps_between(p1, p2, size);
        let line = tiles_on_line(p1, p2, size);
        let tiles = once(line);
        lemma_once(line);
        lemma_once(crosses(tiles));
        let k = lemma_crosses_only(tiles, t);
        assert(tiles.contains(tiles[k]));
        let i = choose|i: int| 0 <= i < line.len() && line[i] == tiles[k];
        assert(p1.x * (steps - i) + p2.x * i == p1.x * steps + i * (p2.x - p1.x)) by (nonlinear_arith);
        assert(p1.y * (steps - i) + p2.y * i == p1.y * steps + i * (p2.y - p1.y)) by (nonlinear_arith);
        let j = if i < steps {
            i
        } else {
            steps - 1
        };
        assert(j * steps <= j * steps <= (j + 1) * steps) by (nonlinear_arith)
            requires
                steps > 0,
        ;
        lemma_axis(p1.x as int, p2.x as int, steps, size, j, j, steps);
        lemma_axis(p1.y as int, p2.y as int, steps, size, j, j, steps);
        assert(line_passes(p1, p2, i, steps, size) == line[i]);
        (i, steps)
    }
}

/// The tiles that a route needs hold every tile that the straight line from a stop to the next one passes.
pub proof fn lemma_route_has_no_gaps(stops: Seq<Point>, i: int, n: int, m: int)
    requires
        0 <= i < stops.len() - 1,
        0 <= n <= m,
        m > 0,
    ensures
        route_needs(
            stops,
            stops.len() - 1,
            line_passes(stops[i], stops[i + 1], n, m, 2_000_000),
        ),
{
    let p1 = stops[i];
    let p2 = stops[i + 1];
    let t1 = tile_at(p1);
    let t2 = tile_at(p2);
    let t = line_passes(p1, p2, n, m, 2_000_000);
    lemma_corridor_has_no_gaps(p1, p2, 2_000_000, n, m);
    lemma_halved(p1.x as int, 2_000_000);
    lemma_halved(p1.y as int, 2_000_000);
    lemma_halved(p2.x as int, 2_000_000);
    lemma_halved(p2.y as int, 2_000_000);
    lemma_axis_between(p1.x as int, p2.x as int, 2_000_000, n, m);
    lemma_axis_between(p1.y as int, p2.y as int, 2_000_000, n, m);
    assert(hop_tiles(p1, p2).contains(t)) by {
        if t1 == t2 {
            assert(t1.block()[0] == t);
        } else if abs_diff(t1.x as int, t2.x as int) <= 1 && abs_diff(t1.y as int, t2.y as int) <= 1 {
            let b = t1.block();
            let all = t1.block() + t2.block();
            assert(b.contains(t)) by {
                assert(b[0] == t1);
                assert(b[1] == t1.shift(-1, -1) && b[2] == t1.shift(0, -1) && b[3] == t1.shift(
                    1,
                    -1,
                ) && b[4] == t1.shift(-1, 0) && b[5] == t1.shift(1, 0) && b[6] == t1.shift(-1, 1)
                    && b[7] == t1.shift(0, 1) && b[8] == t1.shift(1, 1));
            }
            let k = choose|k: int| 0 <= k < b.len() && b[k] == t;
            assert(all[k] == t);
        }
    }
}

/// The tiles that two stops in a row need: the blocks around them if they are close to each other,
/// else the corridor between them.
pub open spec fn hop_tiles(p1: Point, p2: Point) -> Seq<TileCoord> {
    let t1 = tile_at(p1);
    let t2 = tile_at(p2);
    if t1 == t2 {
        t1.block()
    } else if abs_diff(t1.x as int, t2.x as int) <= 1 && abs_diff(t1.y as int, t2.y as int) <= 1 {
        t1.block() + t2.block()
    } else {
        corridor(p1, p2)
    }
}

/// Whether a tile is needed between one of the first `n` stops and the next.
pub open spec fn route_needs(stops: Seq<Point>, n: int, t: TileCoord) -> bool {
    exists|i: int| 0 <= i < n && #[trigger] hop_tiles(stops[i], stops[i + 1]).contains(t)
}

/// Whether a tile comes before another: by column, then by row.
pub open spec fn tile_before(a: TileCoord, b: TileCoord) -> bool {
    a.x < b.x || (a.x == b.x && a.y < b.y)
}

/// Whether tiles stand in their order, each once.
pub open spec fn tiles_sorted(s: Seq<TileCoord>) -> bool {
    forall|i: int, j: int| 0 <= i < j < s.len() ==> #[trigger] tile_before(s[i], s[j])
}

/// `slice::sort_unstable` on pairs: puts the same pairs in order, by the first number and then by the
/// second.
#[verifier::external_body]
fn sort_pairs(v: &mut Vec<(i32, i32)>)
    ensures
        final(v)@.to_multiset() == old(v)@.to_multiset(),
        forall|i: int, j: int|
            #![trigger final(v)@[i], final(v)@[j]]
            0 <= i < j < final(v)@.len() ==> final(v)@[i].0 < final(v)@[j].0 || (final(v)@[i].0
                == final(v)@[j].0 && final(v)@[i].1 <= final(v)@[j].1),
{
    v.sort_unstable()
}

/// The tiles of a set, in their order.
pub fn sorted_tiles(set: TileSet) -> (r: Vec<TileCoord>)
    ensures
        tiles_sorted(r@),
        forall|t: TileCoord| #[trigger] r@.contains(t) <==> tiles_of(set).contains((t.x, t.y)),
{
    let mut pairs = tiles_into_vec(set);
    let ghost p0 = pairs@;
    sort_pairs(&mut pairs);
    let ghost p1 = pairs@;
    proof {
        broadcast use vstd::seq_lib::group_to_multiset_ensures;

        p0.lemma_multiset_has_no_duplicates();
        assert(p1.no_duplicates()) by {
            p1.lemma_multiset_has_no_duplicates_conv();
        }
        assert forall|x: (i32, i32)| #[trigger] p1.contains(x) <==> p0.contains(x) by {
            assert(p1.to_multiset().count(x) == p0.to_multiset().count(x));
        }
    }
    let mut r: Vec<TileCoord> = Vec::new();
    let mut k: usize = 0;
    while k < pairs.len()
        invariant
            pairs@ == p1,
            k <= p1.len(),
            r@.len() == k,
            forall|j: int|
                #![trigger r@[j]]
                0 <= j < k ==> r@[j] == (TileCoord { x: p1[j].0, y: p1[j].1 }),
        decreases p1.len() - k,
    {
        r.push(TileCoord { x: pairs[k].0, y: pairs[k].1 });
        k = k + 1;
    }
    proof {
        assert forall|i: int, j: int| 0 <= i < j < r@.len() implies #[trigger] tile_before(
            r@[i],
            r@[j],
        ) by {
            assert(p1[i] != p1[j]);
        }
        assert forall|t: TileCoord| #[trigger] r@.contains(t) <==> tiles_of(set).contains(
            (t.x, t.y),
        ) by {
            let x = (t.x, t.y);
            assert(p1.contains(x) <==> tiles_of(set).contains(x));
            if p1.contains(x) {
                let k = choose|k: int| 0 <= k < p1.len() && p1[k] == x;
                assert(r@[k] == t);
            }
            if r@.contains(t) {
                let k = choose|k: int| 0 <= k < r@.len() && r@[k] == t;
                assert(p1[k] == x);
            }
        }
    }
    r
}

/// Puts tiles into a set.
pub(crate) fn insert_tiles(set: &mut TileSet, tiles: &[TileCoord])
    ensures
        forall|t: TileCoord|
            #![trigger tiles_of(*final(set)).contains((t.x, t.y))]
            tiles_of(*final(set)).contains((t.x, t.y)) <==> tiles_of(*old(set)).contains((t.x, t.y))
                || tiles@.contains(t),
{
    let mut k: usize = 0;
    while k < tiles.len()
        invariant
            k <= tiles@.len(),
            forall|t: TileCoord|
                #![trigger tiles_of(*set).contains((t.x, t.y))]
                tiles_of(*set).contains((t.x, t.y)) <==> tiles_of(*old(set)).contains((t.x, t.y))
                    || tiles@.take(k as int).contains(t),
        decreases tiles@.len() - k,
    {
        let ghost s0 = tiles_of(*set);
        tiles_insert(set, (tiles[k].x, tiles[k].y));
        proof {
            let a = tiles@.take(k as int);
            let b = tiles@.take(k + 1);
            assert(b =~= a.push(tiles@[k as int]));
            assert forall|t: TileCoord|
                #![trigger tiles_of(*set).contains((t.x, t.y))]
                tiles_of(*set).contains((t.x, t.y)) <==> tiles_of(*old(set)).contains((t.x, t.y))
                    || b.contains(t) by {
                assert(s0.contains((t.x, t.y)) <==> tiles_of(*old(set)).contains((t.x, t.y))
                    || a.contains(t));
                if a.contains(t) {
                    let m = choose|m: int| 0 <= m < a.len() && a[m] == t;
                    assert(b[m] == t);
                }
                if t == tiles@[k as int] {
                    assert(b[k as int] == t);
                }
                if b.contains(t) && t != tiles@[k as int] {
                    let m = choose|m: int| 0 <= m < b.len() && b[m] == t;
                    assert(a[m] == t);
                }
            }
        }
        k = k + 1;
    }
    assert(tiles@.take(k as int) =~= tiles@);
}

/// The tiles that a route needs, in their order. A single stop needs the block around it.
pub fn compute_route_tiles(stops: &Vec<Point>) -> (r: Vec<TileCoord>)
    ensures
        stops@.len() == 0 ==> r@ == Seq::<TileCoord>::empty(),
        stops@.len() == 1 ==> r@ == tile_at(stops@[0]).block(),
        stops@.len() >= 2 ==> tiles_sorted(r@) && forall|t: TileCoord| #[trigger]
            r@.contains(t) <==> route_needs(stops@, stops@.len() - 1, t),
{
    if stops.len() == 0 {
        return Vec::new();
    }
    if stops.len() == 1 {
        let block = TileCoord::from_point(stops[0]).with_neighbors();
        return vstd::slice::slice_to_vec(block.as_slice());
    }
    let mut all = tiles_new();
    let mut i: usize = 0;
    while i < stops.len() - 1
        invariant
            stops@.len() >= 2,
            i <= stops@.len() - 1,
            forall|t: TileCoord|
                #![trigger tiles_of(all).contains((t.x, t.y))]
                tiles_of(all).contains((t.x, t.y)) <==> route_needs(stops@, i as int, t),
        decreases stops@.len() - 1 - i,
    {
        let ghost s0 = tiles_of(all);
        let p1 = stops[i];
        let p2 = stops[i + 1];
        let t1 = TileCoord::from_point(p1);
        let t2 = TileCoord::from_point(p2);
        let ghost need = hop_tiles(p1, p2);
        if t1 == t2 {
            insert_tiles(&mut all, t1.with_neighbors().as_slice());
        } else if t1.x - t2.x <= 1 && t2.x - t1.x <= 1 && t1.y - t2.y <= 1 && t2.y - t1.y <= 1 {
            insert_tiles(&mut all, t1.with_neighbors().as_slice());
            insert_tiles(&mut all, t2.with_neighbors().as_slice());
            proof {
                lemma_concat_tiles(t1.block(), t2.block());
            }
        } else {
            let c = compute_corridor_tiles(p1, p2);
            insert_tiles(&mut all, c.as_slice());
        }
        proof {
            assert forall|t: TileCoord|
                #![trigger tiles_of(all).contains((t.x, t.y))]
                tiles_of(all).contains((t.x, t.y)) <==> route_needs(stops@, i + 1, t) by {
                assert(s0.contains((t.x, t.y)) <==> route_needs(stops@, i as int, t));
                assert(tiles_of(all).contains((t.x, t.y)) <==> s0.contains((t.x, t.y))
                    || need.contains(t));
                if need.contains(t) {
                    assert(hop_tiles(stops@[i as int], stops@[i + 1]).contains(t));
                }
            }
        }
        i = i + 1;
    }
    sorted_tiles(all)
}

proof fn lemma_concat_tiles(a: Seq<TileCoord>, b: Seq<TileCoord>)
    ensures
        forall|x: TileCoord| #[trigger] (a + b).contains(x) <==> a.contains(x) || b.contains(x),
{
    assert forall|x: TileCoord| #[trigger] (a + b).contains(x) <==> a.contains(x) || b.contains(
        x,
    ) by {
        if a.contains(x) {
            let k = choose|k: int| 0 <= k < a.len() && a[k] == x;
            assert((a + b)[k] == x);
        }
        if b.contains(x) {
            let k = choose|k: int| 0 <= k < b.len() && b[k] == x;
            assert((a + b)[a.len() + k] == x);
        }
        if (a + b).contains(x) {
            let k = choose|k: int| 0 <= k < (a + b).len() && (a + b)[k] == x;
            if k < a.len() {
                assert(a[k] == x);
            } else {
                assert(b[k - a.len()] == x);
            }
        }
    }
}

} // verus!
