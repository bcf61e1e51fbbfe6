//! Tiles of half a degree, the graphs built from them, and which of them are kept at hand.

use crate::geometry::{BBox, Point};
use crate::collapse::{work_of, Work, WorkView};
use crate::finish::{costed, set_costs};
use crate::graph::{EdgePL, EdgeView, Graph, NodePL, MODE_BUS, MODE_RAIL};
use crate::hashed::{
    index_get, index_insert, index_new, index_of, spots_get, spots_insert, spots_new, spots_of,
    tiles_insert, tiles_new, tiles_of, IdIndex, PosIndex,
};
use crate::osm::{OsmNode, Way};
use crate::router::weights::capped;
use crate::tags::Tags;
use crate::tile_loader::{
    abs_diff, corridor_of, corridor_tiles, sorted_tiles, tile_containing, tile_of,
};
use lru::LruCache;
use std::num::NonZeroUsize;
use vstd::prelude::*;

verus! {

/// The side of a tile, in units of a ten-millionth of a degree.
pub const TILE_SIZE: i32 = 5_000_000;

/// By how much the bounds of a tile are wider than the tile.
pub const TILE_BUFFER: i32 = 20_000;

/// The column and the row of a tile.
#[derive(Debug, Clone, Copy, PartialEq, Eq, Hash, Structural)]
pub struct TileCoord {
    pub x: i32,
    pub y: i32,
}

/// A tile of this size in place of one of the same column and row.
pub open spec fn half(t: crate::tile_loader::TileCoord) -> TileCoord {
    TileCoord { x: t.x, y: t.y }
}

/// The tile in which a point lies.
pub open spec fn tile_at(p: Point) -> TileCoord {
    half(tile_of(p, 5_000_000))
}

impl TileCoord {
    /// Whether the tile lies on the globe, as far as coordinates reach.
    pub open spec fn on_globe(self) -> bool {
        -429 <= self.x <= 428 && -429 <= self.y <= 428
    }

    pub open spec fn shift(self, dx: int, dy: int) -> TileCoord {
        TileCoord { x: (self.x + dx) as i32, y: (self.y + dy) as i32 }
    }

    /// The tile and the eight around it.
    pub open spec fn block(self) -> Seq<TileCoord> {
        seq![
            self,
            self.shift(-1, -1),
            self.shift(0, -1),
            self.shift(1, -1),
            self.shift(-1, 0),
            self.shift(1, 0),
            self.shift(-1, 1),
            self.shift(0, 1),
            self.shift(1, 1),
        ]
    }

    /// The tile in which a point lies.
    pub fn from_point(p: Point) -> (r: Self)
        ensures
            r == tile_at(p),
    {
        let t = tile_containing(p, TILE_SIZE);
        TileCoord { x: t.x, y: t.y }
    }

    /// The bounds of the tile, with the buffer around it.
    pub fn bbox(&self) -> (r: BBox)
        requires
            self.on_globe(),
        ensures
            r.min_x == self.x * 5_000_000 - 20_000,
            r.min_y == self.y * 5_000_000 - 20_000,
            r.max_x == (self.x + 1) * 5_000_000 + 20_000,
            r.max_y == (self.y + 1) * 5_000_000 + 20_000,
    {
        BBox {
            min_x: self.x * TILE_SIZE - TILE_BUFFER,
            min_y: self.y * TILE_SIZE - TILE_BUFFER,
            max_x: (self.x + 1) * TILE_SIZE + TILE_BUFFER,
            max_y: (self.y + 1) * TILE_SIZE + TILE_BUFFER,
        }
    }

    /// The tile and the eight around it.
    pub fn with_neighbors(&self) -> (r: [TileCoord; 9])
        requires
            i32::MIN < self.x < i32::MAX,
            i32::MIN < self.y < i32::MAX,
        ensures
            r@ == self.block(),
    {
        let r = [
            *self,
            TileCoord { x: self.x - 1, y: self.y - 1 },
            TileCoord { x: self.x, y: self.y - 1 },
            TileCoord { x: self.x + 1, y: self.y - 1 },
            TileCoord { x: self.x - 1, y: self.y },
            TileCoord { x: self.x + 1, y: self.y },
            TileCoord { x: self.x - 1, y: self.y + 1 },
            TileCoord { x: self.x, y: self.y + 1 },
            TileCoord { x: self.x + 1, y: self.y + 1 },
        ];
        assert(r@ =~= self.block());
        r
    }
}

/// A point lies within the bounds of its tile.
pub proof fn lemma_tile_holds(p: Point, b: BBox)
    requires
        tile_at(p).on_globe(),
        b.min_x == tile_at(p).x * 5_000_000 - 20_000,
        b.min_y == tile_at(p).y * 5_000_000 - 20_000,
        b.max_x == (tile_at(p).x + 1) * 5_000_000 + 20_000,
        b.max_y == (tile_at(p).y + 1) * 5_000_000 + 20_000,
    ensures
        b.holds(p),
{
}

/// The tiles along the line between two points, with those beside them.
pub open spec fn corridor(p1: Point, p2: Point) -> Seq<TileCoord> {
    corridor_of(p1, p2, 5_000_000).map_values(|t: crate::tile_loader::TileCoord| half(t))
}

/// The tiles along the line between two points, with those beside them, each once.
pub fn compute_corridor_tiles(p1: Point, p2: Point) -> (r: Vec<TileCoord>)
    ensures
        r@ == corridor(p1, p2),
{
    let tiles = corridor_tiles(p1, p2, TILE_SIZE);
    let mut r: Vec<TileCoord> = Vec::new();
    let mut k: usize = 0;
    while k < tiles.len()
        invariant
            k <= tiles@.len(),
            r@.len() == k,
            forall|j: int| #![trigger r@[j]] 0 <= j < k ==> r@[j] == half(tiles@[j]),
        decreases tiles@.len() - k,
    {
        r.push(TileCoord { x: tiles[k].x, y: tiles[k].y });
        k = k + 1;
    }
    assert(r@ =~= corridor(p1, p2));
    r
}

/// A corridor holds no tile twice, and it holds the tiles of both its ends.
pub proof fn lemma_corridor(p1: Point, p2: Point)
    ensures
        corridor(p1, p2).no_duplicates(),
        corridor(p1, p2).contains(tile_at(p1)),
        corridor(p1, p2).contains(tile_at(p2)),
{
    let tiles = corridor_of(p1, p2, 5_000_000);
    let halves = corridor(p1, p2);
    crate::tile_loader::lemma_corridor(p1, p2, 5_000_000);
    assert forall|i: int, j: int| 0 <= i < halves.len() && 0 <= j < halves.len() && i != j implies halves[i]
        != halves[j] by {
        assert(tiles[i] != tiles[j]);
    }
    let a = choose|a: int| 0 <= a < tiles.len() && tiles[a] == tile_of(p1, 5_000_000);
    let b = choose|b: int| 0 <= b < tiles.len() && tiles[b] == tile_of(p2, 5_000_000);
    assert(halves[a] == tile_at(p1));
    assert(halves[b] == tile_at(p2));
}

/// A corridor has no gaps: it holds every tile that the straight line between its ends passes.
pub proof fn lemma_corridor_has_no_gaps(p1: Point, p2: Point, n: int, m: int)
    requires
        0 <= n <= m,
        m > 0,
    ensures
        corridor(p1, p2).contains(
            TileCoord {
                x: ((p1.x * (m - n) + p2.x * n) / (m * 5_000_000)) as i32,
                y: ((p1.y * (m - n) + p2.y * n) / (m * 5_000_000)) as i32,
            },
        ),
{
    let tiles = corridor_of(p1, p2, 5_000_000);
    let t = crate::tile_loader::line_passes(p1, p2, n, m, 5_000_000);
    crate::tile_loader::lemma_corridor_has_no_gaps(p1, p2, 5_000_000, n, m);
    let k = choose|k: int| 0 <= k < tiles.len() && tiles[k] == t;
    assert(corridor(p1, p2)[k] == half(t));
}

/// A cache of the `lru` crate.
#[verifier::external_type_specification]
#[verifier::external_body]
#[verifier::reject_recursive_types(K)]
#[verifier::reject_recursive_types(V)]
#[verifier::reject_recursive_types(S)]
pub struct ExLruCache<K, V, S>(LruCache<K, V, S>);

/// The hasher that a cache of the `lru` crate uses unless told otherwise.
#[verifier::external_type_specification]
#[verifier::external_body]
pub struct ExLruHasher(lru::DefaultHasher);

/// Handles, each under the column and the row of a tile.
pub type Handles = LruCache<(i32, i32), usize>;

/// The contents of a cache, what was used last first.
pub uninterp spec fn handles_in(c: Handles) -> Seq<((i32, i32), usize)>;

/// How much a cache can hold.
pub uninterp spec fn handle_capacity(c: Handles) -> nat;

/// `LruCache::new`: an empty cache that holds at most so much. Room for all of it is made at once, so
/// it must not be more than can be addressed.
#[verifier::external_body]
fn handles_new(capacity: usize) -> (c: Handles)
    requires
        0 < capacity <= usize::MAX / 128,
    ensures
        handles_in(c) == (Seq::<((i32, i32), usize)>::empty()),
        handle_capacity(c) == capacity,
{
    LruCache::new(NonZeroUsize::new(capacity).unwrap())
}

/// Where a key stands in a cache.
pub open spec fn place_of(s: Seq<((i32, i32), usize)>, k: (i32, i32), i: int) -> bool {
    0 <= i < s.len() && s[i].0 == k
}

/// Whether a key is in a cache.
pub open spec fn is_cached(s: Seq<((i32, i32), usize)>, k: (i32, i32)) -> bool {
    exists|i: int| #[trigger] place_of(s, k, i)
}

/// `LruCache::get`: the handle stored under the key, if there is one. Its entry moves to the front.
#[verifier::external_body]
fn handles_get(c: &mut Handles, k: (i32, i32)) -> (r: Option<usize>)
    ensures
        handle_capacity(*final(c)) == handle_capacity(*old(c)),
        match r {
            Some(v) => exists|i: int| #[trigger]
                place_of(handles_in(*old(c)), k, i) && handles_in(*old(c))[i].1 == v && handles_in(
                    *final(c),
                ) == (seq![(k, v)] + handles_in(*old(c)).remove(i)),
            None => !is_cached(handles_in(*old(c)), k) && *final(c) == *old(c),
        },
{
    c.get(&k).copied()
}

/// `LruCache::push`: stores the handle under the key, at the front. What was stored there before is handed
/// out; if nothing was and the cache is full, what stands last is.
#[verifier::external_body]
fn handles_push(c: &mut Handles, k: (i32, i32), v: usize) -> (r: Option<((i32, i32), usize)>)
    ensures
        handle_capacity(*final(c)) == handle_capacity(*old(c)),
        is_cached(handles_in(*old(c)), k) ==> exists|i: int| #[trigger]
            place_of(handles_in(*old(c)), k, i) && r == Some(handles_in(*old(c))[i]) && handles_in(
                *final(c),
            ) == (seq![(k, v)] + handles_in(*old(c)).remove(i)),
        !is_cached(handles_in(*old(c)), k) && handles_in(*old(c)).len() < handle_capacity(*old(c))
            ==> r is None && handles_in(*final(c)) == (seq![(k, v)] + handles_in(*old(c))),
        !is_cached(handles_in(*old(c)), k) && handles_in(*old(c)).len() == handle_capacity(*old(c))
            && handle_capacity(*old(c)) > 0 ==> r == Some(handles_in(*old(c)).last()) && handles_in(
            *final(c),
        ) == (seq![(k, v)] + handles_in(*old(c)).drop_last()),
{
    c.push(k, v)
}

/// `LruCache::len`: how many entries there are.
#[verifier::external_body]
fn handles_len(c: &Handles) -> (r: usize)
    ensures
        r == handles_in(*c).len(),
{
    c.len()
}

/// Which tiles are kept at hand: those used last, each under a handle that its owner knows.
pub struct TileCache {
    cache: Handles,
}

impl TileCache {
    /// The tiles with their handles, the one used last first.
    pub closed spec fn entries(&self) -> Seq<((i32, i32), usize)> {
        handles_in(self.cache)
    }

    pub closed spec fn capacity(&self) -> nat {
        handle_capacity(self.cache)
    }

    /// Whether there are no more tiles than may be kept, none twice.
    pub open spec fn wf(&self) -> bool {
        &&& 0 < self.capacity()
        &&& self.entries().len() <= self.capacity()
        &&& forall|i: int, j: int|
            #![trigger self.entries()[i], self.entries()[j]]
            0 <= i < j < self.entries().len() ==> self.entries()[i].0 != self.entries()[j].0
    }

    /// A cache that keeps so many tiles.
    pub fn new(capacity: usize) -> (r: Self)
        requires
            0 < capacity <= usize::MAX / 128,
        ensures
            r.wf(),
            r.entries() == Seq::<((i32, i32), usize)>::empty(),
            r.capacity() == capacity,
    {
        TileCache { cache: handles_new(capacity) }
    }

    /// How many tiles are kept.
    pub fn len(&self) -> (r: usize)
        ensures
            r == self.entries().len(),
    {
        handles_len(&self.cache)
    }

    /// The handle of a tile, if it is kept. It is then the one used last.
    pub fn get(&mut self, coord: TileCoord) -> (r: Option<usize>)
        requires
            old(self).wf(),
        ensures
            final(self).wf(),
            final(self).capacity() == old(self).capacity(),
            match r {
                Some(v) => exists|i: int| #[trigger]
                    place_of(old(self).entries(), (coord.x, coord.y), i) && old(self).entries()[i].1
                        == v && final(self).entries() == seq![((coord.x, coord.y), v)] + old(self).entries().remove(i),
                None => !is_cached(old(self).entries(), (coord.x, coord.y)) && final(self).entries() == old(self).entries(),
            },
    {
        let ghost e0 = self.entries();
        let r = handles_get(&mut self.cache, (coord.x, coord.y));
        proof {
            if let Some(v) = r {
                let k = (coord.x, coord.y);
                let i = choose|i: int| #[trigger]
                    place_of(e0, k, i) && e0[i].1 == v && self.entries() == (seq![(k, v)]
                        + e0.remove(i));
                lemma_moved(e0, k, v, i);
            }
        }
        r
    }

    /// Keeps a tile under a handle. What has to go is handed out: the handle that the tile had before, or
    /// the tile that has not been used for the longest time if there is no room.
    pub fn put(&mut self, coord: TileCoord, handle: usize) -> (r: Option<((i32, i32), usize)>)
        requires
            old(self).wf(),
        ensures
            final(self).wf(),
            final(self).capacity() == old(self).capacity(),
            final(self).entries().len() > 0,
            final(self).entries()[0] == ((coord.x, coord.y), handle),
            is_cached(old(self).entries(), (coord.x, coord.y)) ==> exists|i: int| #[trigger]
                place_of(old(self).entries(), (coord.x, coord.y), i) && r == Some(
                    old(self).entries()[i],
                ) && final(self).entries().drop_first() == old(self).entries().remove(i),
            !is_cached(old(self).entries(), (coord.x, coord.y)) && old(self).entries().len() < old(self).capacity() ==> r is None && final(self).entries().drop_first() == old(self).entries(),
            !is_cached(old(self).entries(), (coord.x, coord.y)) && old(self).entries().len() == old(self).capacity() ==> r == Some(old(self).entries().last()) && final(self).entries().drop_first() == old(self).entries().drop_last(),
    {
        let ghost e0 = self.entries();
        let ghost k = (coord.x, coord.y);
        let r = handles_push(&mut self.cache, (coord.x, coord.y), handle);
        proof {
            if is_cached(e0, k) {
                let i = choose|i: int| #[trigger]
                    place_of(e0, k, i) && r == Some(e0[i]) && self.entries() == (seq![(k, handle)]
                        + e0.remove(i));
                lemma_moved(e0, k, handle, i);
                assert(self.entries().drop_first() =~= e0.remove(i));
            } else {
                assert forall|i: int| 0 <= i < e0.len() implies (#[trigger] e0[i]).0 != k by {
                    if e0[i].0 == k {
                        assert(place_of(e0, k, i));
                    }
                }
                if e0.len() < self.capacity() {
                    assert(self.entries().drop_first() =~= e0);
                } else {
                    assert(self.entries().drop_first() =~= e0.drop_last());
                }
                let e1 = self.entries();
                assert forall|i: int, j: int|
                    #![trigger e1[i], e1[j]]
                    0 <= i < j < e1.len() implies e1[i].0 != e1[j].0 by {
                    assert(e1[j] == e0[j - 1]);
                    if i > 0 {
                        assert(e1[i] == e0[i - 1]);
                    }
                }
            }
        }
        r
    }
}

/// Moving an entry to the front keeps the others apart.
proof fn lemma_moved(e0: Seq<((i32, i32), usize)>, k: (i32, i32), v: usize, i: int)
    requires
        place_of(e0, k, i),
        forall|a: int, b: int|
            #![trigger e0[a], e0[b]]
            0 <= a < b < e0.len() ==> e0[a].0 != e0[b].0,
    ensures
        ({
            let e1 = seq![(k, v)] + e0.remove(i);
            &&& e1.len() == e0.len()
            &&& forall|a: int, b: int|
                #![trigger e1[a], e1[b]]
                0 <= a < b < e1.len() ==> e1[a].0 != e1[b].0
        }),
{
    let e1 = seq![(k, v)] + e0.remove(i);
    assert forall|a: int, b: int|
        #![trigger e1[a], e1[b]]
        0 <= a < b < e1.len() implies e1[a].0 != e1[b].0 by {
        let y = if b - 1 < i {
            b - 1
        } else {
            b
        };
        assert(e1[b] == e0[y]);
        if a > 0 {
            let x = if a - 1 < i {
                a - 1
            } else {
                a
            };
            assert(e1[a] == e0[x]);
        } else {
            assert(e0[i].0 == k);
        }
    }
}

/// The graph of a tile, and which node of the map each of its nodes is.
pub struct TileData {
    pub graph: Graph<NodePL, EdgePL>,
    pub osm_node_to_graph_idx: IdIndex,
}

impl TileData {
    /// A tile without contents.
    pub fn new() -> (r: Self)
        ensures
            r.graph.wf(),
            r.graph.nodes@.len() == 0,
            r.graph.edges@.len() == 0,
            index_of(r.osm_node_to_graph_idx) == Map::<i64, usize>::empty(),
    {
        TileData { graph: Graph::new(), osm_node_to_graph_idx: index_new() }
    }
}

/// The index of each of the first `n` nodes under its identifier, the last one if several share it.
pub open spec fn node_slots(nodes: Seq<OsmNode>, n: int) -> Map<i64, usize>
    decreases n,
{
    if n <= 0 {
        Map::empty()
    } else {
        node_slots(nodes, n - 1).insert(nodes[n - 1].id, (n - 1) as usize)
    }
}

/// The indices of the first `n` nodes of a way, as far as these are known.
pub open spec fn known_nodes(slots: Map<i64, usize>, refs: Seq<i64>, n: int) -> Seq<usize>
    decreases n,
{
    if n <= 0 {
        Seq::empty()
    } else if slots.contains_key(refs[n - 1]) {
        known_nodes(slots, refs, n - 1).push(slots[refs[n - 1]])
    } else {
        known_nodes(slots, refs, n - 1)
    }
}

/// The directions in which a way may be used.
pub open spec fn tile_oneway(t: Tags) -> u8 {
    if t.has3("oneway"@, "yes"@, "true"@, "1"@) {
        1
    } else if t.has("oneway"@, "-1"@) {
        2
    } else {
        0
    }
}

/// The modes that may use a way: buses, and trains if it is a track.
pub open spec fn tile_modes(t: Tags) -> u8 {
    if t.val("railway"@) is Some {
        MODE_BUS | MODE_RAIL
    } else {
        MODE_BUS
    }
}

/// The edge from one node of a way to the next.
pub open spec fn tile_edge(
    points: Seq<Point>,
    idxs: Seq<usize>,
    way: Way,
    level: i32,
    i: int,
) -> WorkView {
    WorkView {
        from: idxs[i],
        to: idxs[i + 1],
        payload: EdgeView {
            geometry: seq![points[idxs[i] as int], points[idxs[i + 1] as int]],
            lines: Seq::empty(),
            oneway: tile_oneway(way.tags),
            cost: 0,
            level,
            restriction: false,
            is_reverse: false,
            allowed_modes: tile_modes(way.tags),
            osmid: way.id,
            preferred_direction: 0,
        },
        active: true,
    }
}

/// The edges of a way.
pub open spec fn way_edges(points: Seq<Point>, idxs: Seq<usize>, way: Way, level: i32) -> Work {
    if idxs.len() < 2 {
        Seq::empty()
    } else {
        Seq::new((idxs.len() - 1) as nat, |i: int| tile_edge(points, idxs, way, level, i))
    }
}

/// The edges of the first `n` ways.
pub open spec fn tile_edges(
    points: Seq<Point>,
    slots: Map<i64, usize>,
    ways: Seq<Way>,
    levels: Seq<i32>,
    n: int,
) -> Work
    decreases n,
{
    if n <= 0 {
        Seq::empty()
    } else {
        let w = ways[n - 1];
        tile_edges(points, slots, ways, levels, n - 1) + way_edges(
            points,
            known_nodes(slots, w.nodes@, w.nodes@.len() as int),
            w,
            levels[n - 1],
        )
    }
}

/// Where nodes lie.
pub open spec fn node_points(nodes: Seq<OsmNode>) -> Seq<Point> {
    nodes.map_values(|n: OsmNode| n.point)
}

proof fn lemma_slots_below(nodes: Seq<OsmNode>, n: int)
    requires
        0 <= n <= nodes.len(),
        nodes.len() <= usize::MAX,
    ensures
        forall|id: i64| #[trigger]
            node_slots(nodes, n).contains_key(id) ==> node_slots(nodes, n)[id] < n,
    decreases n,
{
    if n > 0 {
        lemma_slots_below(nodes, n - 1);
        let m = node_slots(nodes, n - 1);
        assert forall|id: i64| #[trigger] node_slots(nodes, n).contains_key(id) implies node_slots(
            nodes,
            n,
        )[id] < n by {
            if id != nodes[n - 1].id {
                assert(m.contains_key(id));
            }
        }
    }
}

fn known_nodes_of(slots: &IdIndex, refs: &Vec<i64>, Ghost(n): Ghost<int>) -> (r: Vec<usize>)
    requires
        forall|id: i64| #[trigger]
            index_of(*slots).contains_key(id) ==> index_of(*slots)[id] < n,
    ensures
        r@ == known_nodes(index_of(*slots), refs@, refs@.len() as int),
        forall|i: int| 0 <= i < r@.len() ==> (#[trigger] r@[i]) < n,
{
    let mut r: Vec<usize> = Vec::new();
    let mut i: usize = 0;
    while i < refs.len()
        invariant
            i <= refs@.len(),
            forall|id: i64| #[trigger]
                index_of(*slots).contains_key(id) ==> index_of(*slots)[id] < n,
            r@ == known_nodes(index_of(*slots), refs@, i as int),
            forall|j: int| 0 <= j < r@.len() ==> (#[trigger] r@[j]) < n,
        decreases refs@.len() - i,
    {
        if let Some(k) = index_get(slots, refs[i]) {
            assert(index_of(*slots).contains_key(refs@[i as int]));
            r.push(k);
        }
        i = i + 1;
    }
    r
}

/// Whether a graph has these nodes, and nothing is known of their components.
pub open spec fn has_points(g: Graph<NodePL, EdgePL>, points: Seq<Point>) -> bool {
    &&& g.nodes@.len() == points.len()
    &&& forall|i: int|
        #![trigger g.nodes@[i]]
        0 <= i < points.len() ==> g.nodes@[i].payload == (NodePL { point: points[i], comp_id: 0 })
}

fn add_tile_way(
    graph: &mut Graph<NodePL, EdgePL>,
    idxs: &Vec<usize>,
    way: &Way,
    level: i32,
    Ghost(points): Ghost<Seq<Point>>,
)
    requires
        old(graph).wf(),
        has_points(*old(graph), points),
        forall|i: int| 0 <= i < idxs@.len() ==> (#[trigger] idxs@[i]) < points.len(),
    ensures
        final(graph).wf(),
        has_points(*final(graph), points),
        work_of(final(graph).edges@) == work_of(old(graph).edges@) + way_edges(
            points,
            idxs@,
            *way,
            level,
        ),
{
    let ghost w0 = work_of(graph.edges@);
    let ghost all = way_edges(points, idxs@, *way, level);
    if idxs.len() < 2 {
        assert(w0 + all =~= w0);
        return ;
    }
    let oneway: u8 = if way.tags.is3("oneway", "yes", "true", "1") {
        1
    } else if way.tags.is("oneway", "-1") {
        2
    } else {
        0
    };
    let modes: u8 = if way.tags.contains_key("railway") {
        MODE_BUS | MODE_RAIL
    } else {
        MODE_BUS
    };
    let mut i: usize = 0;
    assert(w0 + all.take(0) =~= w0);
    while i < idxs.len() - 1
        invariant
            idxs@.len() >= 2,
            i <= idxs@.len() - 1,
            graph.wf(),
            has_points(*graph, points),
            forall|i: int| 0 <= i < idxs@.len() ==> (#[trigger] idxs@[i]) < points.len(),
            oneway == tile_oneway(way.tags),
            modes == tile_modes(way.tags),
            all == way_edges(points, idxs@, *way, level),
            work_of(graph.edges@) == w0 + all.take(i as int),
        decreases idxs@.len() - i,
    {
        let a: usize = idxs[i];
        let b: usize = idxs[i + 1];
        assert(idxs@[i as int] < points.len() && idxs@[i + 1] < points.len());
        let mut payload = EdgePL::new();
        let mut geometry: Vec<Point> = Vec::new();
        geometry.push(graph.nodes[a].payload.point);
        geometry.push(graph.nodes[b].payload.point);
        payload.geometry = geometry;
        payload.level = level;
        payload.oneway = oneway;
        payload.allowed_modes = modes;
        payload.osmid = way.id;
        let ghost before = *graph;
        let ghost view = payload@;
        proof {
            assert(view.geometry =~= seq![points[a as int], points[b as int]]);
            assert(view.lines =~= Seq::<crate::graph::TransitInfoId>::empty());
            assert(view == all[i as int].payload);
        }
        graph.add_edge(a, b, payload);
        proof {
            assert(work_of(graph.edges@) =~= work_of(before.edges@).push(all[i as int]));
            assert(all.take(i + 1) =~= all.take(i as int).push(all[i as int]));
            assert(w0 + all.take(i + 1) =~= (w0 + all.take(i as int)).push(all[i as int]));
            assert forall|k: int|
                #![trigger graph.nodes@[k]]
                0 <= k < points.len() implies graph.nodes@[k].payload == (NodePL {
                point: points[k],
                comp_id: 0,
            }) by {
                assert(graph.nodes@[k].payload == before.nodes@[k].payload);
            }
        }
        i = i + 1;
    }
    assert(all.take(i as int) =~= all);
}

/// Builds the graph of a tile from its nodes and ways, given the level of each way. Its edges cost
/// nothing yet.
pub fn load_tile(nodes: &Vec<OsmNode>, ways: &Vec<Way>, levels: &Vec<i32>) -> (r: TileData)
    requires
        levels@.len() == ways@.len(),
    ensures
        r.graph.wf(),
        has_points(r.graph, node_points(nodes@)),
        index_of(r.osm_node_to_graph_idx) == node_slots(nodes@, nodes@.len() as int),
        work_of(r.graph.edges@) == tile_edges(
            node_points(nodes@),
            node_slots(nodes@, nodes@.len() as int),
            ways@,
            levels@,
            ways@.len() as int,
        ),
{
    let ghost points = node_points(nodes@);
    let mut graph: Graph<NodePL, EdgePL> = Graph::new();
    let mut slots: IdIndex = index_new();
    let mut i: usize = 0;
    while i < nodes.len()
        invariant
            i <= nodes@.len(),
            points == node_points(nodes@),
            graph.wf(),
            graph.edges@.len() == 0,
            has_points(graph, points.take(i as int)),
            index_of(slots) == node_slots(nodes@, i as int),
        decreases nodes@.len() - i,
    {
        let ghost before = graph;
        let idx: usize = graph.add_node(NodePL { point: nodes[i].point, comp_id: 0 });
        index_insert(&mut slots, nodes[i].id, idx);
        proof {
            let next = points.take(i + 1);
            assert forall|k: int|
                #![trigger graph.nodes@[k]]
                0 <= k < next.len() implies graph.nodes@[k].payload == (NodePL {
                point: next[k],
                comp_id: 0,
            }) by {
                if k < i {
                    assert(graph.nodes@.take(idx as int)[k] == before.nodes@[k]);
                    assert(before.nodes@[k].payload.point == points.take(i as int)[k]);
                }
            }
        }
        i = i + 1;
    }
    assert(points.take(i as int) =~= points);
    assert(nodes.len() == nodes@.len());
    proof {
        lemma_slots_below(nodes@, nodes@.len() as int);
    }
    let mut w: usize = 0;
    assert(work_of(graph.edges@) =~= Seq::empty());
    while w < ways.len()
        invariant
            w <= ways@.len(),
            levels@.len() == ways@.len(),
            points == node_points(nodes@),
            graph.wf(),
            has_points(graph, points),
            index_of(slots) == node_slots(nodes@, nodes@.len() as int),
            forall|id: i64| #[trigger]
                index_of(slots).contains_key(id) ==> index_of(slots)[id] < points.len(),
            work_of(graph.edges@) == tile_edges(
                points,
                index_of(slots),
                ways@,
                levels@,
                w as int,
            ),
        decreases ways@.len() - w,
    {
        let idxs = known_nodes_of(&slots, &ways[w].nodes, Ghost(points.len() as int));
        add_tile_way(&mut graph, &idxs, &ways[w], levels[w], Ghost(points));
        w = w + 1;
    }
    TileData { graph, osm_node_to_graph_idx: slots }
}

/// What edges of these lengths in millimetres cost: their length in centimetres.
pub open spec fn tile_costs(lengths_mm: Seq<u64>) -> Seq<u32> {
    lengths_mm.map_values(|l: u64| capped((l as int / 10) as nat))
}

/// An edge that runs the other way.
pub open spec fn twin(e: WorkView) -> WorkView {
    WorkView {
        from: e.to,
        to: e.from,
        payload: EdgeView { geometry: e.payload.geometry.reverse(), ..e.payload },
        ..e
    }
}

/// Edges with twins of those among the first `k` that are open both ways behind them.
pub open spec fn with_twins(w: Work, k: int) -> Work
    decreases k,
{
    if k <= 0 {
        w
    } else if w[k - 1].payload.oneway == 0 {
        with_twins(w, k - 1).push(twin(w[k - 1]))
    } else {
        with_twins(w, k - 1)
    }
}

proof fn lemma_twins_behind(w: Work, k: int)
    requires
        0 <= k <= w.len(),
    ensures
        with_twins(w, k).len() >= w.len(),
        forall|i: int| 0 <= i < w.len() ==> #[trigger] with_twins(w, k)[i] == w[i],
    decreases k,
{
    if k > 0 {
        lemma_twins_behind(w, k - 1);
    }
}

fn reversed(v: &Vec<Point>) -> (r: Vec<Point>)
    ensures
        r@ == v@.reverse(),
{
    let mut r: Vec<Point> = Vec::new();
    let mut i: usize = v.len();
    while i > 0
        invariant
            i <= v@.len(),
            r@.len() == v@.len() - i,
            forall|j: int| #![trigger r@[j]] 0 <= j < r@.len() ==> r@[j] == v@[v@.len() - 1 - j],
        decreases i,
    {
        i = i - 1;
        r.push(v[i]);
    }
    assert(r@ =~= v@.reverse());
    r
}

/// Gives the edges of a tile their costs, by their lengths in millimetres, and adds a twin for each that is
/// open both ways.
pub fn finish_tile(tile: &mut TileData, lengths_mm: &Vec<u64>)
    requires
        old(tile).graph.wf(),
        lengths_mm@.len() == old(tile).graph.edges@.len(),
    ensures
        final(tile).graph.wf(),
        final(tile).osm_node_to_graph_idx == old(tile).osm_node_to_graph_idx,
        crate::collapse::same_but_edges(old(tile).graph, final(tile).graph),
        work_of(final(tile).graph.edges@) == with_twins(
            costed(work_of(old(tile).graph.edges@), tile_costs(lengths_mm@)),
            lengths_mm@.len() as int,
        ),
{
    let ghost w0 = work_of(tile.graph.edges@);
    let mut costs: Vec<u32> = Vec::new();
    let mut k: usize = 0;
    while k < lengths_mm.len()
        invariant
            k <= lengths_mm@.len(),
            costs@.len() == k,
            forall|j: int|
                #![trigger costs@[j]]
                0 <= j < k ==> costs@[j] == tile_costs(lengths_mm@)[j],
        decreases lengths_mm@.len() - k,
    {
        let c: u64 = lengths_mm[k] / 10;
        costs.push(
            if c >= u32::MAX as u64 {
                u32::MAX
            } else {
                c as u32
            },
        );
        k = k + 1;
    }
    assert(costs@ =~= tile_costs(lengths_mm@));
    set_costs(&mut tile.graph, &costs);
    let ghost w1 = costed(w0, costs@);
    let ghost g1 = tile.graph;
    let count: usize = lengths_mm.len();
    assert(work_of(tile.graph.edges@).len() == w0.len());
    k = 0;
    while k < count
        invariant
            count == w1.len(),
            k <= count,
            tile.graph.wf(),
            tile.graph.edges@.len() >= count,
            tile.osm_node_to_graph_idx == old(tile).osm_node_to_graph_idx,
            crate::collapse::same_but_edges(g1, tile.graph),
            work_of(tile.graph.edges@) == with_twins(w1, k as int),
        decreases count - k,
    {
        proof {
            lemma_twins_behind(w1, k as int);
            assert(work_of(tile.graph.edges@)[k as int] == w1[k as int]);
        }
        if tile.graph.edges[k].payload.oneway == 0 {
            let from: usize = tile.graph.edges[k].from;
            let to: usize = tile.graph.edges[k].to;
            assert(tile.graph.edges@[k as int].from < tile.graph.nodes@.len());
            let mut payload = tile.graph.edges[k].payload.clone();
            payload.geometry = reversed(&tile.graph.edges[k].payload.geometry);
            let ghost before = tile.graph;
            tile.graph.add_edge(to, from, payload);
            assert(work_of(tile.graph.edges@) =~= work_of(before.edges@).push(twin(w1[k as int])));
        }
        k = k + 1;
    }
}

/// A coordinate in millionths of a degree, cut off.
pub open spec fn micro(v: int) -> int {
    if v >= 0 {
        v / 10
    } else {
        -((-v) / 10)
    }
}

/// By what nodes of different tiles are recognised as the same.
pub open spec fn pos_key(p: Point) -> (i32, i32) {
    (micro(p.x as int) as i32, micro(p.y as int) as i32)
}

fn micro_of(v: i32) -> (r: i32)
    ensures
        r == micro(v as int),
{
    if v >= 0 {
        v / 10
    } else {
        let m: i64 = -(v as i64);
        (-(m / 10)) as i32
    }
}

/// A graph that is put together from tiles, as plain values.
pub struct MergeState {
    pub payloads: Seq<NodePL>,
    pub spots: Map<(i32, i32), usize>,
    pub edges: Work,
}

impl MergeState {
    pub open spec fn empty() -> MergeState {
        MergeState { payloads: Seq::empty(), spots: Map::empty(), edges: Seq::empty() }
    }

    /// With a node, unless there is one at the same place.
    pub open spec fn with_node(self, n: NodePL) -> MergeState {
        if self.spots.contains_key(pos_key(n.point)) {
            self
        } else {
            MergeState {
                payloads: self.payloads.push(n),
                spots: self.spots.insert(pos_key(n.point), self.payloads.len() as usize),
                ..self
            }
        }
    }

    /// With the first `n` nodes of a graph.
    pub open spec fn with_nodes(self, g: Graph<NodePL, EdgePL>, n: int) -> MergeState
        decreases n,
    {
        if n <= 0 {
            self
        } else {
            self.with_nodes(g, n - 1).with_node(g.nodes@[n - 1].payload)
        }
    }

    /// An edge of a graph, between the nodes that stand for its own.
    pub open spec fn moved(self, g: Graph<NodePL, EdgePL>, e: int) -> WorkView {
        WorkView {
            from: self.spots[pos_key(g.nodes@[g.edges@[e].from as int].payload.point)],
            to: self.spots[pos_key(g.nodes@[g.edges@[e].to as int].payload.point)],
            payload: g.edges@[e].payload@,
            active: true,
        }
    }

    /// With all of a graph.
    pub open spec fn with_graph(self, g: Graph<NodePL, EdgePL>) -> MergeState {
        let m = self.with_nodes(g, g.nodes@.len() as int);
        MergeState {
            edges: m.edges + Seq::new(g.edges@.len(), |e: int| m.moved(g, e)),
            ..m
        }
    }

    /// Whether a graph and a table of places are in this state.
    pub open spec fn is_state_of(self, g: Graph<NodePL, EdgePL>, spots: Map<(i32, i32), usize>) -> bool {
        &&& g.nodes@.len() == self.payloads.len()
        &&& forall|i: int|
            #![trigger g.nodes@[i]]
            0 <= i < g.nodes@.len() ==> g.nodes@[i].payload == self.payloads[i]
        &&& spots == self.spots
        &&& work_of(g.edges@) == self.edges
        &&& forall|k: (i32, i32)| #[trigger]
            self.spots.contains_key(k) ==> self.spots[k] < self.payloads.len()
    }
}

/// The state once the first `n` tiles have been put together.
pub open spec fn merged(tiles: Seq<TileData>, n: int) -> MergeState
    decreases n,
{
    if n <= 0 {
        MergeState::empty()
    } else {
        merged(tiles, n - 1).with_graph(tiles[n - 1].graph)
    }
}

/// Nodes that were added stay known.
proof fn lemma_nodes_known(m: MergeState, g: Graph<NodePL, EdgePL>, n: int, i: int)
    requires
        0 <= i < n <= g.nodes@.len(),
    ensures
        m.with_nodes(g, n).spots.contains_key(pos_key(g.nodes@[i].payload.point)),
    decreases n,
{
    if i < n - 1 {
        lemma_nodes_known(m, g, n - 1, i);
    }
}

/// Puts the graphs of tiles together. Nodes at the same place become one.
pub fn merge_tiles(tiles: &Vec<TileData>) -> (r: Graph<NodePL, EdgePL>)
    requires
        forall|i: int| 0 <= i < tiles@.len() ==> (#[trigger] tiles@[i]).graph.wf(),
    ensures
        r.wf(),
        merged(tiles@, tiles@.len() as int).is_state_of(
            r,
            merged(tiles@, tiles@.len() as int).spots,
        ),
{
    let mut r: Graph<NodePL, EdgePL> = Graph::new();
    let mut spots: PosIndex = spots_new();
    let mut t: usize = 0;
    assert(work_of(r.edges@) =~= Seq::empty());
    while t < tiles.len()
        invariant
            forall|i: int| 0 <= i < tiles@.len() ==> (#[trigger] tiles@[i]).graph.wf(),
            t <= tiles@.len(),
            r.wf(),
            merged(tiles@, t as int).is_state_of(r, spots_of(spots)),
        decreases tiles@.len() - t,
    {
        assert(tiles@[t as int].graph.wf());
        merge_graph(&mut r, &mut spots, &tiles[t].graph, Ghost(merged(tiles@, t as int)));
        t = t + 1;
    }
    r
}

fn merge_graph(
    r: &mut Graph<NodePL, EdgePL>,
    spots: &mut PosIndex,
    g: &Graph<NodePL, EdgePL>,
    Ghost(m0): Ghost<MergeState>,
)
    requires
        old(r).wf(),
        g.wf(),
        m0.is_state_of(*old(r), spots_of(*old(spots))),
    ensures
        final(r).wf(),
        m0.with_graph(*g).is_state_of(*final(r), spots_of(*final(spots))),
{
    let mut i: usize = 0;
    while i < g.nodes.len()
        invariant
            i <= g.nodes@.len(),
            r.wf(),
            m0.with_nodes(*g, i as int).is_state_of(*r, spots_of(*spots)),
            m0.with_nodes(*g, i as int).edges == m0.edges,
        decreases g.nodes@.len() - i,
    {
        let ghost m = m0.with_nodes(*g, i as int);
        let p = g.nodes[i].payload.point;
        let key: (i32, i32) = (micro_of(p.x), micro_of(p.y));
        let known = spots_get(spots, key);
        if known.is_none() {
            let ghost before = *r;
            let payload = NodePL { point: p, comp_id: g.nodes[i].payload.comp_id };
            let idx: usize = r.add_node(payload);
            spots_insert(spots, key, idx);
            proof {
                let next = m.with_node(g.nodes@[i as int].payload);
                assert(payload == g.nodes@[i as int].payload);
                assert forall|k: int|
                    #![trigger r.nodes@[k]]
                    0 <= k < r.nodes@.len() implies r.nodes@[k].payload == next.payloads[k] by {
                    if k < idx {
                        assert(r.nodes@.take(idx as int)[k] == before.nodes@[k]);
                    }
                }
                assert forall|k: (i32, i32)| #[trigger]
                    next.spots.contains_key(k) implies next.spots[k] < next.payloads.len() by {
                    if k != key {
                        assert(m.spots.contains_key(k));
                    }
                }
            }
        }
        i = i + 1;
    }
    let ghost m = m0.with_nodes(*g, g.nodes@.len() as int);
    let ghost all = Seq::new(g.edges@.len(), |e: int| m.moved(*g, e));
    let mut e: usize = 0;
    assert(m.edges + all.take(0) =~= m.edges);
    while e < g.edges.len()
        invariant
            g.wf(),
            e <= g.edges@.len(),
            m == m0.with_nodes(*g, g.nodes@.len() as int),
            all == Seq::new(g.edges@.len(), |e: int| m.moved(*g, e)),
            r.wf(),
            r.nodes@.len() == m.payloads.len(),
            forall|k: int|
                #![trigger r.nodes@[k]]
                0 <= k < r.nodes@.len() ==> r.nodes@[k].payload == m.payloads[k],
            spots_of(*spots) == m.spots,
            forall|k: (i32, i32)| #[trigger]
                m.spots.contains_key(k) ==> m.spots[k] < m.payloads.len(),
            work_of(r.edges@) == m.edges + all.take(e as int),
        decreases g.edges@.len() - e,
    {
        let edge = &g.edges[e];
        assert(g.edges@[e as int].from < g.nodes@.len());
        proof {
            lemma_nodes_known(m0, *g, g.nodes@.len() as int, g.edges@[e as int].from as int);
            lemma_nodes_known(m0, *g, g.nodes@.len() as int, g.edges@[e as int].to as int);
        }
        let a = g.nodes[edge.from].payload.point;
        let b = g.nodes[edge.to].payload.point;
        let from = spots_get(spots, (micro_of(a.x), micro_of(a.y)));
        let to = spots_get(spots, (micro_of(b.x), micro_of(b.y)));
        if let (Some(from), Some(to)) = (from, to) {
            let payload = edge.payload.clone();
            let ghost before = *r;
            r.add_edge(from, to, payload);
            proof {
                assert(work_of(r.edges@) =~= work_of(before.edges@).push(all[e as int]));
                assert(all.take(e + 1) =~= all.take(e as int).push(all[e as int]));
                assert(m.edges + all.take(e + 1) =~= (m.edges + all.take(e as int)).push(
                    all[e as int],
                ));
            }
        }
        e = e + 1;
    }
    assert(all.take(e as int) =~= all);
}

/// The tiles that a hop between two points needs: the block around it if both lie in one tile, both blocks
/// if their tiles touch, else the corridor between them.
pub open spec fn segment_needs(p1: Point, p2: Point, t: TileCoord) -> bool {
    let a = tile_at(p1);
    let b = tile_at(p2);
    if a == b {
        a.block().contains(t)
    } else if abs_diff(a.x as int, b.x as int) <= 1 && abs_diff(a.y as int, b.y as int) <= 1 {
        a.block().contains(t) || b.block().contains(t)
    } else {
        corridor(p1, p2).contains(t)
    }
}

fn touch(a: TileCoord, b: TileCoord) -> (r: bool)
    requires
        -1100 <= a.x <= 1100,
        -1100 <= a.y <= 1100,
        -1100 <= b.x <= 1100,
        -1100 <= b.y <= 1100,
    ensures
        r == (abs_diff(a.x as int, b.x as int) <= 1 && abs_diff(a.y as int, b.y as int) <= 1),
{
    let dx: i32 = a.x - b.x;
    let dy: i32 = a.y - b.y;
    -1 <= dx && dx <= 1 && -1 <= dy && dy <= 1
}

/// Whether tiles are in the order of column and row, none twice.
pub open spec fn in_order(tiles: Seq<TileCoord>) -> bool {
    forall|i: int, j: int|
        #![trigger tiles[i], tiles[j]]
        0 <= i < j < tiles.len() ==> tiles[i].x < tiles[j].x || (tiles[i].x == tiles[j].x
            && tiles[i].y < tiles[j].y)
}

/// Whether two tiles are side by side or corner to corner.
pub open spec fn are_adjacent(a: TileCoord, b: TileCoord) -> bool {
    &&& a != b
    &&& abs_diff(a.x as int, b.x as int) <= 1
    &&& abs_diff(a.y as int, b.y as int) <= 1
}

/// The tiles that a hop between two points needs: in the order of the block if both points lie in one
/// tile, by column and row and each once if their tiles touch, else in the order of the corridor.
pub fn get_for_segment(p1: Point, p2: Point) -> (r: Vec<TileCoord>)
    ensures
        forall|t: TileCoord| #[trigger] r@.contains(t) <==> segment_needs(p1, p2, t),
        tile_at(p1) == tile_at(p2) ==> r@ == tile_at(p1).block(),
        are_adjacent(tile_at(p1), tile_at(p2)) ==> in_order(r@),
        tile_at(p1) != tile_at(p2) && !are_adjacent(tile_at(p1), tile_at(p2)) ==> r@ == corridor(
            p1,
            p2,
        ),
{
    let a = tile_containing(p1, TILE_SIZE);
    let b = tile_containing(p2, TILE_SIZE);
    let ta = TileCoord { x: a.x, y: a.y };
    let tb = TileCoord { x: b.x, y: b.y };
    if ta.x == tb.x && ta.y == tb.y {
        let block = ta.with_neighbors();
        return vstd::slice::slice_to_vec(block.as_slice());
    }
    if !touch(ta, tb) {
        return compute_corridor_tiles(p1, p2);
    }
    let x = ta.with_neighbors();
    let y = tb.with_neighbors();
    let mut set = tiles_new();
    let mut k: usize = 0;
    while k < 9
        invariant
            k <= 9,
            x@ == ta.block(),
            y@ == tb.block(),
            forall|t: (i32, i32)| #[trigger]
                tiles_of(set).contains(t) <==> exists|j: int|
                    #![trigger x@[j]]
                    0 <= j < k && ((x@[j].x, x@[j].y) == t || (y@[j].x, y@[j].y) == t),
        decreases 9 - k,
    {
        let ghost s0 = tiles_of(set);
        tiles_insert(&mut set, (x[k].x, x[k].y));
        tiles_insert(&mut set, (y[k].x, y[k].y));
        assert forall|t: (i32, i32)| #[trigger] tiles_of(set).contains(t) <==> exists|j: int|
            #![trigger x@[j]]
            0 <= j < k + 1 && ((x@[j].x, x@[j].y) == t || (y@[j].x, y@[j].y) == t) by {
            assert(x@[k as int] == x[k as int]);
            if s0.contains(t) {
                let j = choose|j: int|
                    #![trigger x@[j]]
                    0 <= j < k && ((x@[j].x, x@[j].y) == t || (y@[j].x, y@[j].y) == t);
                assert(x@[j] == x@[j]);
            }
        }
        k = k + 1;
    }
    let sorted = sorted_tiles(set);
    let mut r: Vec<TileCoord> = Vec::new();
    k = 0;
    while k < sorted.len()
        invariant
            k <= sorted@.len(),
            r@.len() == k,
            forall|j: int| #![trigger r@[j]] 0 <= j < k ==> r@[j] == half(sorted@[j]),
        decreases sorted@.len() - k,
    {
        r.push(TileCoord { x: sorted[k].x, y: sorted[k].y });
        k = k + 1;
    }
    proof {
        assert(in_order(r@)) by {
            assert forall|i: int, j: int|
                #![trigger r@[i], r@[j]]
                0 <= i < j < r@.len() implies r@[i].x < r@[j].x || (r@[i].x == r@[j].x && r@[i].y
                < r@[j].y) by {
                assert(crate::tile_loader::tile_before(sorted@[i], sorted@[j]));
            }
        }
        assert forall|t: TileCoord| #[trigger] r@.contains(t) <==> segment_needs(p1, p2, t) by {
            let u = crate::tile_loader::TileCoord { x: t.x, y: t.y };
            assert(sorted@.contains(u) <==> tiles_of(set).contains((t.x, t.y)));
            if r@.contains(t) {
                let j = choose|j: int| 0 <= j < r@.len() && r@[j] == t;
                assert(sorted@[j] == u);
                let i = choose|i: int|
                    #![trigger x@[i]]
                    0 <= i < 9 && ((x@[i].x, x@[i].y) == (t.x, t.y) || (y@[i].x, y@[i].y) == (
                        t.x,
                        t.y,
                    ));
                assert(x@[i] == t || y@[i] == t);
            }
            if ta.block().contains(t) {
                let i = choose|i: int| 0 <= i < ta.block().len() && ta.block()[i] == t;
                assert(x@[i] == t);
                assert(tiles_of(set).contains((t.x, t.y)));
                let j = choose|j: int| 0 <= j < sorted@.len() && sorted@[j] == u;
                assert(r@[j] == t);
            }
            if tb.block().contains(t) {
                let i = choose|i: int| 0 <= i < tb.block().len() && tb.block()[i] == t;
                assert(x@[i] == x@[i] && y@[i] == t);
                assert(tiles_of(set).contains((t.x, t.y)));
                let j = choose|j: int| 0 <= j < sorted@.len() && sorted@[j] == u;
                assert(r@[j] == t);
            }
        }
    }
    r
}

// What the graph of a tile, and of several, is made of.

/// A node is found by its identifier at the last position at which it occurs.
pub proof fn lemma_node_slots(nodes: Seq<OsmNode>, n: int, id: i64)
    requires
        0 <= n <= nodes.len() <= usize::MAX,
    ensures
        node_slots(nodes, n).contains_key(id) <==> exists|i: int|
            0 <= i < n && (#[trigger] nodes[i]).id == id,
        node_slots(nodes, n).contains_key(id) ==> node_slots(nodes, n)[id] < n && nodes[node_slots(
            nodes,
            n,
        )[id] as int].id == id && forall|j: int|
            node_slots(nodes, n)[id] < j < n ==> (#[trigger] nodes[j]).id != id,
    decreases n,
{
    if n > 0 {
        lemma_node_slots(nodes, n - 1, id);
        if nodes[n - 1].id == id {
            assert(node_slots(nodes, n)[id] == n - 1);
        }
    }
}

/// The known nodes of a way are its nodes that have positions, in their order.
pub proof fn lemma_known_nodes(slots: Map<i64, usize>, refs: Seq<i64>, n: int)
    requires
        0 <= n <= refs.len(),
    ensures
        known_nodes(slots, refs, n) == refs.take(n).filter(
            |id: i64| slots.contains_key(id),
        ).map_values(|id: i64| slots[id]),
    decreases n,
{
    reveal(Seq::filter);
    let f = |id: i64| slots.contains_key(id);
    if n > 0 {
        lemma_known_nodes(slots, refs, n - 1);
        assert(refs.take(n).drop_last() =~= refs.take(n - 1));
        assert(known_nodes(slots, refs, n) =~= refs.take(n).filter(f).map_values(
            |id: i64| slots[id],
        ));
    } else {
        assert(known_nodes(slots, refs, n) =~= refs.take(n).filter(f).map_values(
            |id: i64| slots[id],
        ));
    }
}

/// Whether an edge joins two known nodes that follow one another on a way, straight from the one to the other.
pub open spec fn joins_known(
    points: Seq<Point>,
    slots: Map<i64, usize>,
    way: Way,
    e: WorkView,
    j: int,
) -> bool {
    let stops = known_nodes(slots, way.nodes@, way.nodes@.len() as int);
    &&& 0 < j < stops.len()
    &&& e.from == stops[j - 1]
    &&& e.to == stops[j]
    &&& e.payload.geometry == seq![points[e.from as int], points[e.to as int]]
    &&& e.payload.osmid == way.id
}

/// Whether an edge joins two known nodes that follow one another on one of the first `n` ways.
pub open spec fn is_of_ways(
    points: Seq<Point>,
    slots: Map<i64, usize>,
    ways: Seq<Way>,
    n: int,
    e: WorkView,
) -> bool {
    exists|k: int, j: int| 0 <= k < n && #[trigger] joins_known(points, slots, ways[k], e, j)
}

/// Whether two known nodes, if they follow one another on a way, are joined by an edge.
pub open spec fn are_joined(
    points: Seq<Point>,
    slots: Map<i64, usize>,
    way: Way,
    j: int,
    w: Work,
) -> bool {
    0 < j < known_nodes(slots, way.nodes@, way.nodes@.len() as int).len() ==> exists|i: int|
        0 <= i < w.len() && joins_known(points, slots, way, #[trigger] w[i], j)
}

/// Each two known nodes that follow one another on a way are joined by an edge, and each edge joins such nodes.
pub proof fn lemma_tile_edges(
    points: Seq<Point>,
    slots: Map<i64, usize>,
    ways: Seq<Way>,
    levels: Seq<i32>,
    n: int,
)
    requires
        0 <= n <= ways.len(),
    ensures
        ({
            let r = tile_edges(points, slots, ways, levels, n);
            &&& forall|i: int|
                0 <= i < r.len() ==> is_of_ways(points, slots, ways, n, #[trigger] r[i])
            &&& forall|k: int, j: int|
                0 <= k < n ==> #[trigger] are_joined(points, slots, ways[k], j, r)
        }),
    decreases n,
{
    if n > 0 {
        lemma_tile_edges(points, slots, ways, levels, n - 1);
        let before = tile_edges(points, slots, ways, levels, n - 1);
        let r = tile_edges(points, slots, ways, levels, n);
        let way = ways[n - 1];
        let stops = known_nodes(slots, way.nodes@, way.nodes@.len() as int);
        let new = way_edges(points, stops, way, levels[n - 1]);
        assert(r == before + new);
        assert forall|i: int| 0 <= i < r.len() implies is_of_ways(
            points,
            slots,
            ways,
            n,
            #[trigger] r[i],
        ) by {
            if i < before.len() {
                assert(r[i] == before[i]);
                let (k, j) = choose|k: int, j: int|
                    0 <= k < n - 1 && #[trigger] joins_known(points, slots, ways[k], before[i], j);
                assert(joins_known(points, slots, ways[k], r[i], j));
            } else {
                let j = i - before.len();
                assert(r[i] == new[j]);
                assert(joins_known(points, slots, ways[n - 1], r[i], j + 1));
            }
        }
        assert forall|k: int, j: int| 0 <= k < n implies #[trigger] are_joined(
            points,
            slots,
            ways[k],
            j,
            r,
        ) by {
            let here = known_nodes(slots, ways[k].nodes@, ways[k].nodes@.len() as int);
            if !(0 < j < here.len()) {
            } else if k < n - 1 {
                assert(are_joined(points, slots, ways[k], j, before));
                let i = choose|i: int|
                    0 <= i < before.len() && joins_known(
                        points,
                        slots,
                        ways[k],
                        #[trigger] before[i],
                        j,
                    );
                assert(r[i] == before[i]);
            } else {
                let i = before.len() + j - 1;
                assert(r[i] == new[j - 1]);
                assert(joins_known(points, slots, ways[k], r[i], j));
            }
        }
    }
}

/// Whether an edge leads back along another: between the same nodes, over the same points, the other way round.
pub open spec fn leads_back(e: WorkView, b: WorkView) -> bool {
    &&& b.from == e.to
    &&& b.to == e.from
    &&& b.payload.geometry.len() == e.payload.geometry.len()
    &&& forall|i: int|
        #![trigger b.payload.geometry[i]]
        0 <= i < b.payload.geometry.len() ==> b.payload.geometry[i]
            == e.payload.geometry[e.payload.geometry.len() - 1 - i]
    &&& b.payload.osmid == e.payload.osmid
    &&& b.payload.cost == e.payload.cost
    &&& b.payload.level == e.payload.level
    &&& b.payload.allowed_modes == e.payload.allowed_modes
    &&& b.payload.lines == e.payload.lines
}

/// Edges stay where they are. Behind them comes one that leads back for each that is open both ways, and for no
/// other, in their order.
pub proof fn lemma_twins(w: Work, k: int)
    requires
        0 <= k <= w.len(),
    ensures
        ({
            let open = w.take(k).filter(|e: WorkView| e.payload.oneway == 0);
            let r = with_twins(w, k);
            &&& r.len() == w.len() + open.len()
            &&& forall|i: int| 0 <= i < w.len() ==> #[trigger] r[i] == w[i]
            &&& forall|i: int|
                0 <= i < open.len() ==> leads_back(#[trigger] open[i], r[w.len() + i])
        }),
    decreases k,
{
    reveal(Seq::filter);
    let f = |e: WorkView| e.payload.oneway == 0;
    let open = w.take(k).filter(f);
    let r = with_twins(w, k);
    if k > 0 {
        lemma_twins(w, k - 1);
        let before = w.take(k - 1).filter(f);
        let rest = with_twins(w, k - 1);
        assert(w.take(k).drop_last() =~= w.take(k - 1));
        assert(w.take(k).last() == w[k - 1]);
        assert forall|i: int| 0 <= i < open.len() implies leads_back(
            #[trigger] open[i],
            r[w.len() + i],
        ) by {
            if i < before.len() {
                assert(open[i] == before[i]);
                assert(r[w.len() + i] == rest[w.len() + i]);
            } else {
                assert(open[i] == w[k - 1]);
                assert(r[w.len() + i] == twin(w[k - 1]));
            }
        }
    } else {
        assert(w.take(0) =~= Seq::empty());
        assert(open =~= Seq::empty());
    }
}

/// An edge costs its length in full centimetres, as far as costs reach.
pub proof fn lemma_tile_costs(lengths_mm: Seq<u64>, k: int)
    requires
        0 <= k < lengths_mm.len(),
        lengths_mm[k] <= 42_949_672_940,
    ensures
        10 * tile_costs(lengths_mm)[k] <= lengths_mm[k] < 10 * tile_costs(lengths_mm)[k] + 10,
{
}

/// Two points are taken for the same if and only if both coordinates agree in all digits but the last, and in
/// their signs unless that is all they have.
pub proof fn lemma_pos_key(p: Point, q: Point)
    ensures
        pos_key(p) == pos_key(q) <==> same_but_last_digit(p.x as int, q.x as int)
            && same_but_last_digit(p.y as int, q.y as int),
{
    lemma_micro(p.x as int, q.x as int);
    lemma_micro(p.y as int, q.y as int);
}

/// Whether two numbers are the same up to their last digits.
pub open spec fn same_but_last_digit(a: int, b: int) -> bool {
    ||| -10 < a < 10 && -10 < b < 10
    ||| exists|t: int| 0 < t && #[trigger] (10 * t) <= a < 10 * t + 10 && 10 * t <= b < 10 * t + 10
    ||| exists|t: int| 0 < t && #[trigger] (10 * t) <= -a < 10 * t + 10 && 10 * t <= -b < 10 * t + 10
}

proof fn lemma_micro(a: int, b: int)
    ensures
        micro(a) == micro(b) <==> same_but_last_digit(a, b),
{
    if micro(a) == micro(b) {
        if micro(a) > 0 {
            let t = micro(a);
            assert(10 * t <= a < 10 * t + 10);
        } else if micro(a) < 0 {
            let t = -micro(a);
            assert(10 * t <= -a < 10 * t + 10);
        }
    }
}

impl MergeState {
    /// Whether places lead to the nodes that lie there, and no two nodes lie at the same place.
    pub open spec fn is_sound(self) -> bool {
        &&& self.payloads.len() <= usize::MAX
        &&& forall|i: int|
            #![trigger self.payloads[i]]
            0 <= i < self.payloads.len() ==> self.spots.contains_key(pos_key(self.payloads[i].point))
                && self.spots[pos_key(self.payloads[i].point)] == i
        &&& forall|k: (i32, i32)| #[trigger]
            self.spots.contains_key(k) ==> self.spots[k] < self.payloads.len() && pos_key(
                self.payloads[self.spots[k] as int].point,
            ) == k
    }

    /// Whether there is a node at the place of a point.
    pub open spec fn has_node_at(self, p: Point) -> bool {
        exists|i: int|
            0 <= i < self.payloads.len() && pos_key((#[trigger] self.payloads[i]).point) == pos_key(p)
    }

    /// Whether an edge stands for one of a graph: it carries the same, between nodes at the same places.
    pub open spec fn stands_for(self, w: WorkView, g: Graph<NodePL, EdgePL>, e: int) -> bool {
        let edge = g.edges@[e];
        &&& 0 <= e < g.edges@.len()
        &&& w.payload == edge.payload@
        &&& w.from < self.payloads.len()
        &&& w.to < self.payloads.len()
        &&& pos_key(self.payloads[w.from as int].point) == pos_key(
            g.nodes@[edge.from as int].payload.point,
        )
        &&& pos_key(self.payloads[w.to as int].point) == pos_key(
            g.nodes@[edge.to as int].payload.point,
        )
    }

    /// Whether there is a node at the place of a node of a graph.
    pub open spec fn has_node_of(self, g: Graph<NodePL, EdgePL>, v: int) -> bool {
        0 <= v < g.nodes@.len() ==> self.has_node_at(g.nodes@[v].payload.point)
    }

    /// Whether there is an edge that stands for one of a graph.
    pub open spec fn has_edge_of(self, g: Graph<NodePL, EdgePL>, e: int) -> bool {
        0 <= e < g.edges@.len() ==> exists|i: int|
            0 <= i < self.edges.len() && self.stands_for(#[trigger] self.edges[i], g, e)
    }

    /// Whether an edge stands for one of the first `n` tiles.
    pub open spec fn is_of_tiles(self, tiles: Seq<TileData>, n: int, w: WorkView) -> bool {
        exists|t: int, e: int| 0 <= t < n && #[trigger] self.stands_for(w, tiles[t].graph, e)
    }

    /// Whether nothing of a state is lost or changed in another.
    pub open spec fn stays_in(self, m: MergeState) -> bool {
        &&& self.payloads.len() <= m.payloads.len()
        &&& forall|i: int| 0 <= i < self.payloads.len() ==> #[trigger] m.payloads[i] == self.payloads[i]
        &&& self.edges.len() <= m.edges.len()
        &&& forall|i: int| 0 <= i < self.edges.len() ==> #[trigger] m.edges[i] == self.edges[i]
    }
}

proof fn lemma_nodes_sound(m: MergeState, g: Graph<NodePL, EdgePL>, n: int)
    requires
        m.is_sound(),
        0 <= n <= g.nodes@.len(),
        m.payloads.len() + n <= usize::MAX,
    ensures
        m.with_nodes(g, n).is_sound(),
        m.stays_in(m.with_nodes(g, n)),
        m.with_nodes(g, n).edges == m.edges,
        m.with_nodes(g, n).payloads.len() <= m.payloads.len() + n,
    decreases n,
{
    if n > 0 {
        lemma_nodes_sound(m, g, n - 1);
        let a = m.with_nodes(g, n - 1);
        let b = m.with_nodes(g, n);
        let p = g.nodes@[n - 1].payload;
        if !a.spots.contains_key(pos_key(p.point)) {
            assert(b == a.with_node(p));
            assert forall|i: int|
                #![trigger b.payloads[i]]
                0 <= i < b.payloads.len() implies b.spots.contains_key(pos_key(b.payloads[i].point))
                && b.spots[pos_key(b.payloads[i].point)] == i by {
                if i < a.payloads.len() {
                    assert(b.payloads[i] == a.payloads[i]);
                }
            }
            assert forall|k: (i32, i32)| #[trigger] b.spots.contains_key(k) implies b.spots[k]
                < b.payloads.len() && pos_key(b.payloads[b.spots[k] as int].point) == k by {
                if k != pos_key(p.point) {
                    assert(a.spots.contains_key(k));
                }
            }
        }
    }
}

/// How many nodes the first `n` tiles have.
pub open spec fn nodes_in(tiles: Seq<TileData>, n: int) -> nat
    decreases n,
{
    if n <= 0 {
        0
    } else {
        nodes_in(tiles, n - 1) + tiles[n - 1].graph.nodes@.len()
    }
}

proof fn lemma_merged_sound(tiles: Seq<TileData>, n: int)
    requires
        0 <= n <= tiles.len(),
        nodes_in(tiles, n) <= usize::MAX,
    ensures
        merged(tiles, n).is_sound(),
        merged(tiles, n).payloads.len() <= nodes_in(tiles, n),
    decreases n,
{
    if n > 0 {
        lemma_merged_sound(tiles, n - 1);
        let g = tiles[n - 1].graph;
        let a = merged(tiles, n - 1);
        lemma_nodes_sound(a, g, g.nodes@.len() as int);
        let b = a.with_nodes(g, g.nodes@.len() as int);
        let c = merged(tiles, n);
        assert(c.payloads == b.payloads && c.spots == b.spots);
    }
}

/// When tiles are put together, no two nodes lie at the same place, each node of a tile has one at its place,
/// each edge of a tile has one that stands for it, and each edge stands for one of a tile.
pub proof fn lemma_merge_joins_places(tiles: Seq<TileData>, n: int)
    requires
        0 <= n <= tiles.len(),
        nodes_in(tiles, n) <= usize::MAX,
        forall|t: int| 0 <= t < n ==> (#[trigger] tiles[t]).graph.wf(),
    ensures
        ({
            let m = merged(tiles, n);
            &&& forall|i: int, j: int|
                #![trigger m.payloads[i], m.payloads[j]]
                0 <= i < j < m.payloads.len() ==> pos_key(m.payloads[i].point) != pos_key(
                    m.payloads[j].point,
                )
            &&& forall|t: int, v: int| 0 <= t < n ==> #[trigger] m.has_node_of(tiles[t].graph, v)
            &&& forall|t: int, e: int| 0 <= t < n ==> #[trigger] m.has_edge_of(tiles[t].graph, e)
            &&& forall|i: int|
                0 <= i < m.edges.len() ==> m.is_of_tiles(tiles, n, #[trigger] m.edges[i])
        }),
    decreases n,
{
    let m = merged(tiles, n);
    lemma_merged_sound(tiles, n);
    assert forall|i: int, j: int|
        #![trigger m.payloads[i], m.payloads[j]]
        0 <= i < j < m.payloads.len() implies pos_key(m.payloads[i].point) != pos_key(
        m.payloads[j].point,
    ) by {
        assert(m.spots[pos_key(m.payloads[i].point)] == i);
        assert(m.spots[pos_key(m.payloads[j].point)] == j);
    }
    if n > 0 {
        lemma_merge_joins_places(tiles, n - 1);
        lemma_merged_sound(tiles, n - 1);
        let a = merged(tiles, n - 1);
        let g = tiles[n - 1].graph;
        let size = g.nodes@.len() as int;
        let b = a.with_nodes(g, size);
        lemma_nodes_sound(a, g, size);
        assert(m.payloads == b.payloads && m.spots == b.spots);
        assert(m.edges == a.edges + Seq::new(g.edges@.len(), |e: int| b.moved(g, e)));
        assert forall|t: int, v: int| 0 <= t < n implies #[trigger] m.has_node_of(
            tiles[t].graph,
            v,
        ) by {
            let p = tiles[t].graph.nodes@[v].payload.point;
            if !(0 <= v < tiles[t].graph.nodes@.len()) {
            } else if t < n - 1 {
                assert(a.has_node_of(tiles[t].graph, v));
                let i = choose|i: int|
                    0 <= i < a.payloads.len() && pos_key((#[trigger] a.payloads[i]).point) == pos_key(p);
                assert(m.payloads[i] == a.payloads[i]);
            } else {
                lemma_nodes_known(a, g, size, v);
                let i = b.spots[pos_key(p)] as int;
                assert(pos_key(m.payloads[i].point) == pos_key(p));
            }
        }
        assert forall|e: int| 0 <= e < g.edges@.len() implies m.stands_for(
            #[trigger] m.edges[a.edges.len() + e],
            g,
            e,
        ) by {
            assert(tiles[n - 1].graph.wf());
            let edge = g.edges@[e];
            lemma_nodes_known(a, g, size, edge.from as int);
            lemma_nodes_known(a, g, size, edge.to as int);
            assert(m.edges[a.edges.len() + e] == b.moved(g, e));
        }
        assert forall|t: int, e: int| 0 <= t < n implies #[trigger] m.has_edge_of(
            tiles[t].graph,
            e,
        ) by {
            if !(0 <= e < tiles[t].graph.edges@.len()) {
            } else if t < n - 1 {
                assert(a.has_edge_of(tiles[t].graph, e));
                let i = choose|i: int|
                    0 <= i < a.edges.len() && a.stands_for(#[trigger] a.edges[i], tiles[t].graph, e);
                assert(m.edges[i] == a.edges[i]);
                lemma_stands(a, m, m.edges[i], tiles[t].graph, e);
            } else {
                assert(m.stands_for(m.edges[a.edges.len() + e], g, e));
            }
        }
        assert forall|i: int| 0 <= i < m.edges.len() implies m.is_of_tiles(
            tiles,
            n,
            #[trigger] m.edges[i],
        ) by {
            if i < a.edges.len() {
                assert(m.edges[i] == a.edges[i]);
                let (t, e) = choose|t: int, e: int|
                    0 <= t < n - 1 && #[trigger] a.stands_for(a.edges[i], tiles[t].graph, e);
                lemma_stands(a, m, m.edges[i], tiles[t].graph, e);
            } else {
                let e = i - a.edges.len();
                assert(m.stands_for(m.edges[a.edges.len() + e], tiles[n - 1].graph, e));
            }
        }
    }
}

proof fn lemma_stands(
    a: MergeState,
    m: MergeState,
    w: WorkView,
    g: Graph<NodePL, EdgePL>,
    e: int,
)
    requires
        a.stands_for(w, g, e),
        a.payloads.len() <= m.payloads.len(),
        forall|i: int| 0 <= i < a.payloads.len() ==> #[trigger] m.payloads[i] == a.payloads[i],
    ensures
        m.stands_for(w, g, e),
{
    assert(m.payloads[w.from as int] == a.payloads[w.from as int]);
    assert(m.payloads[w.to as int] == a.payloads[w.to as int]);
}

} // verus!
