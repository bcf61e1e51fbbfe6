//! Distributing nodes and ways among the tiles of the map.

use crate::collapse::NODE_FLAG_RESTRICTION;
use crate::geometry::Point;
use crate::hashed::{
    flags_at, flags_get, flags_insert, flags_new, ids_contains, ids_of, points_at, points_get,
    points_insert, points_new, tiles_insert, tiles_new, tiles_of, FlagIndex, PointIndex, TileSet,
};
use crate::id_list::contains_id;
use crate::osm::{OsmNode, Way};
use crate::resources::IdentifiedResources;
use crate::rules::{
    bus_direction, bus_level, bus_oneway, bus_rule, coach_level, coach_rule, flags_of, lowest,
    node_flags,
};
use crate::tile_loader::{sorted_tiles, tile_at, tiles_sorted, TileCoord};
use vstd::prelude::*;
use vstd::slice::slice_to_vec;

verus! {

/// A node in the file of a tile.
#[derive(Debug, Clone, Copy, PartialEq, Eq)]
pub struct NodeData {
    pub id: i64,
    pub point: Point,
    pub flags: u8,
}

/// A way in the file of a tile.
#[derive(Debug)]
pub struct WayData {
    pub id: i64,
    pub refs: Vec<i64>,
    /// The level of the way for buses.
    pub bus_level: u8,
    /// The level of the way for coaches.
    pub coach_level: u8,
    /// 0 if open both ways, 1 if only forward, 2 if only backward.
    pub oneway: u8,
    /// Whether turns on the way are restricted. On edges they are only at the nodes concerned.
    pub restriction: bool,
}

/// What the file of a tile holds.
#[derive(Debug)]
pub enum TileItem {
    Node(NodeData),
    Way(WayData),
}

/// The flags of a node on a road network: those of its tags, and whether turns are restricted there.
pub open spec fn split_flags(node: OsmNode, via: Set<i64>) -> u8 {
    if via.contains(node.id) {
        (flags_of(node.tags) as u8) | NODE_FLAG_RESTRICTION
    } else {
        flags_of(node.tags) as u8
    }
}

/// Whether a record is that of a way.
pub open spec fn is_record_of(d: WayData, way: Way, res: IdentifiedResources) -> bool {
    &&& d.id == way.id
    &&& d.refs@ == way.nodes@
    &&& d.bus_level == lowest(|n: int| bus_rule(way.tags, n))
    &&& d.coach_level == lowest(|n: int| coach_rule(way.tags, n))
    &&& d.oneway == bus_direction(way.tags)
    &&& d.restriction == ids_of(res.restricted_ways).contains(way.id)
}

/// Whether a node of a way has a place, and it is in a tile.
pub open spec fn lies_in(points: Map<i64, (i32, i32)>, id: i64, t: TileCoord) -> bool {
    points.contains_key(id) && tile_at(Point { x: points[id].0, y: points[id].1 }) == t
}

/// Whether a way has a node in a tile.
pub open spec fn reaches_tile(points: Map<i64, (i32, i32)>, nodes: Seq<i64>, t: TileCoord) -> bool {
    exists|i: int| 0 <= i < nodes.len() && #[trigger] lies_in(points, nodes[i], t)
}

/// The record of a node that has a place.
pub open spec fn node_copy(
    points: Map<i64, (i32, i32)>,
    flags: Map<i64, u8>,
    id: i64,
) -> NodeData {
    NodeData {
        id,
        point: Point { x: points[id].0, y: points[id].1 },
        flags: if flags.contains_key(id) {
            flags[id]
        } else {
            0
        },
    }
}

/// The nodes of a way that have a place outside a tile, in order.
pub open spec fn outside_nodes(
    points: Map<i64, (i32, i32)>,
    flags: Map<i64, u8>,
    nodes: Seq<i64>,
    t: TileCoord,
) -> Seq<NodeData>
    decreases nodes.len(),
{
    if nodes.len() == 0 {
        Seq::empty()
    } else {
        let rest = outside_nodes(points, flags, nodes.drop_last(), t);
        let id = nodes.last();
        if points.contains_key(id) && !lies_in(points, id, t) {
            rest.push(node_copy(points, flags, id))
        } else {
            rest
        }
    }
}

/// What is known of the nodes that have been distributed.
pub struct OsmSplitter {
    pub points: PointIndex,
    /// The flags of the nodes that have any.
    pub flags: FlagIndex,
}

impl OsmSplitter {
    /// Nothing has been distributed.
    pub fn new() -> (r: Self)
        ensures
            points_at(r.points) == Map::<i64, (i32, i32)>::empty(),
            flags_at(r.flags) == Map::<i64, u8>::empty(),
    {
        OsmSplitter { points: points_new(), flags: flags_new() }
    }

    /// Looks at a node: if it is needed, notes its place and its flags, and says which record goes to
    /// which tile.
    pub fn add_node(&mut self, node: &OsmNode, res: &IdentifiedResources) -> (r: Option<
        (TileCoord, NodeData),
    >)
        requires
            res.wf(),
        ensures
            ({
                let f = split_flags(*node, ids_of(res.restriction_via_nodes));
                if res.needed_nodes@.contains(node.id) {
                    &&& r == Some(
                        (
                            tile_at(node.point),
                            NodeData { id: node.id, point: node.point, flags: f },
                        ),
                    )
                    &&& points_at(final(self).points) == points_at(old(self).points).insert(
                        node.id,
                        (node.point.x, node.point.y),
                    )
                    &&& flags_at(final(self).flags) == (if f != 0 {
                        flags_at(old(self).flags).insert(node.id, f)
                    } else {
                        flags_at(old(self).flags)
                    })
                } else {
                    r is None && *final(self) == *old(self)
                }
            }),
    {
        if !contains_id(&res.needed_nodes, node.id) {
            return None;
        }
        points_insert(&mut self.points, node.id, (node.point.x, node.point.y));
        let mut flags: u8 = node_flags(&node.tags);
        if ids_contains(&res.restriction_via_nodes, node.id) {
            flags = flags | NODE_FLAG_RESTRICTION;
        }
        if flags != 0 {
            flags_insert(&mut self.flags, node.id, flags);
        }
        Some(
            (
                TileCoord::from_point(node.point),
                NodeData { id: node.id, point: node.point, flags },
            ),
        )
    }

    fn tiles_of_way(&self, nodes: &Vec<i64>) -> (r: TileSet)
        ensures
            forall|t: TileCoord|
                #![trigger tiles_of(r).contains((t.x, t.y))]
                tiles_of(r).contains((t.x, t.y)) <==> reaches_tile(
                    points_at(self.points),
                    nodes@,
                    t,
                ),
    {
        let mut r = tiles_new();
        let ghost points = points_at(self.points);
        let mut i: usize = 0;
        while i < nodes.len()
            invariant
                points == points_at(self.points),
                i <= nodes@.len(),
                forall|t: TileCoord|
                    #![trigger tiles_of(r).contains((t.x, t.y))]
                    tiles_of(r).contains((t.x, t.y)) <==> exists|k: int|
                        0 <= k < i && #[trigger] lies_in(points, nodes@[k], t),
            decreases nodes@.len() - i,
        {
            let ghost r0 = tiles_of(r);
            if let Some((x, y)) = points_get(&self.points, nodes[i]) {
                let tile = TileCoord::from_point(Point { x, y });
                tiles_insert(&mut r, (tile.x, tile.y));
                assert(lies_in(points, nodes@[i as int], tile));
            }
            proof {
                assert forall|t: TileCoord|
                    #![trigger tiles_of(r).contains((t.x, t.y))]
                    tiles_of(r).contains((t.x, t.y)) <==> exists|k: int|
                        0 <= k < i + 1 && #[trigger] lies_in(points, nodes@[k], t) by {
                    assert(r0.contains((t.x, t.y)) <==> exists|k: int|
                        0 <= k < i && #[trigger] lies_in(points, nodes@[k], t));
                    if lies_in(points, nodes@[i as int], t) {
                        assert(tiles_of(r).contains((t.x, t.y)));
                    }
                }
            }
            i = i + 1;
        }
        r
    }

    /// The records of the nodes of a way that lie outside a tile, for the file of that tile.
    pub fn copies_for_tile(&self, nodes: &Vec<i64>, tile: TileCoord) -> (r: Vec<NodeData>)
        ensures
            r@ == outside_nodes(points_at(self.points), flags_at(self.flags), nodes@, tile),
    {
        let mut r: Vec<NodeData> = Vec::new();
        let mut i: usize = 0;
        assert(nodes@.take(0) =~= Seq::<i64>::empty());
        while i < nodes.len()
            invariant
                i <= nodes@.len(),
                r@ == outside_nodes(
                    points_at(self.points),
                    flags_at(self.flags),
                    nodes@.take(i as int),
                    tile,
                ),
            decreases nodes@.len() - i,
        {
            assert(nodes@.take(i + 1).drop_last() =~= nodes@.take(i as int));
            if let Some((x, y)) = points_get(&self.points, nodes[i]) {
                let point = Point { x, y };
                if TileCoord::from_point(point) != tile {
                    let flags: u8 = match flags_get(&self.flags, nodes[i]) {
                        Some(f) => f,
                        None => 0,
                    };
                    r.push(NodeData { id: nodes[i], point, flags });
                }
            }
            i = i + 1;
        }
        assert(nodes@.take(i as int) =~= nodes@);
        r
    }

    /// Looks at a way: if it is kept and has a node in some tile, says which tiles its record goes to.
    /// Each of them also needs the nodes of the way that lie outside it.
    pub fn add_way(&self, way: &Way, res: &IdentifiedResources) -> (r: Option<
        (Vec<TileCoord>, WayData),
    >)
        requires
            res.wf(),
        ensures
            ({
                let goes = res.kept_ways@.contains(way.id) && way.nodes@.len() > 1 && exists|
                    t: TileCoord,
                | #[trigger]
                    reaches_tile(points_at(self.points), way.nodes@, t);
                match r {
                    Some((tiles, record)) => {
                        &&& goes
                        &&& tiles_sorted(tiles@)
                        &&& forall|t: TileCoord| #[trigger]
                            tiles@.contains(t) <==> reaches_tile(
                                points_at(self.points),
                                way.nodes@,
                                t,
                            )
                        &&& is_record_of(record, *way, *res)
                    },
                    None => !goes,
                }
            }),
    {
        if !contains_id(&res.kept_ways, way.id) || way.nodes.len() <= 1 {
            return None;
        }
        let tiles = sorted_tiles(self.tiles_of_way(&way.nodes));
        if tiles.len() == 0 {
            proof {
                assert forall|t: TileCoord| !#[trigger] reaches_tile(
                    points_at(self.points),
                    way.nodes@,
                    t,
                ) by {
                    assert(!tiles@.contains(t));
                }
            }
            return None;
        }
        assert(tiles@.contains(tiles@[0]));
        assert(reaches_tile(points_at(self.points), way.nodes@, tiles@[0]));
        let record = WayData {
            id: way.id,
            refs: slice_to_vec(way.nodes.as_slice()),
            bus_level: bus_level(&way.tags),
            coach_level: coach_level(&way.tags),
            oneway: bus_oneway(&way.tags),
            restriction: ids_contains(&res.restricted_ways, way.id),
        };
        Some((tiles, record))
    }
}

/// A tile that gets a way gets all its nodes that have a place: they lie in it, or come as copies.
pub proof fn lemma_tile_gets_nodes(
    points: Map<i64, (i32, i32)>,
    flags: Map<i64, u8>,
    nodes: Seq<i64>,
    t: TileCoord,
    i: int,
)
    requires
        0 <= i < nodes.len(),
        points.contains_key(nodes[i]),
    ensures
        lies_in(points, nodes[i], t) || outside_nodes(points, flags, nodes, t).contains(
            node_copy(points, flags, nodes[i]),
        ),
    decreases nodes.len(),
{
    let rest = outside_nodes(points, flags, nodes.drop_last(), t);
    let all = outside_nodes(points, flags, nodes, t);
    if i < nodes.len() - 1 {
        lemma_tile_gets_nodes(points, flags, nodes.drop_last(), t, i);
        if !lies_in(points, nodes[i], t) {
            let c = node_copy(points, flags, nodes[i]);
            let k = choose|k: int| 0 <= k < rest.len() && rest[k] == c;
            assert(all[k] == c);
        }
    } else if !lies_in(points, nodes[i], t) {
        assert(all[rest.len() as int] == node_copy(points, flags, nodes[i]));
    }
}

/// A node is marked if and only if turns are restricted at it; its other flags stay.
pub proof fn lemma_split_flags(node: OsmNode, via: Set<i64>)
    ensures
        split_flags(node, via) & NODE_FLAG_RESTRICTION != 0 <==> via.contains(node.id),
        split_flags(node, via) & 3u8 == flags_of(node.tags),
{
    let f = flags_of(node.tags) as u8;
    assert(f <= 3);
    assert((f | NODE_FLAG_RESTRICTION) & NODE_FLAG_RESTRICTION != 0 && (f | NODE_FLAG_RESTRICTION) & 3
        == f && f & NODE_FLAG_RESTRICTION == 0 && f & 3 == f) by (bit_vector)
        requires
            f <= 3,
    ;
}

} // verus!
