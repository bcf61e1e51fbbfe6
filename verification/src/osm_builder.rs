//! Building the graph of a profile from a map extract.

use crate::collapse::{
    collapse_edges, collapse_upto, directed_edge_exists, leads, rebuilt, work_of, Work, WorkView,
    NODE_FLAG_RESTRICTION,
};
use crate::components::is_number;
use crate::finish::{finish_graph, finished};
use crate::geometry::{BBox, Point};
use crate::graph::{
    Edge, EdgePL, EdgeView, Graph, Node, NodeIndex, NodePL, TransitInfo, TransitInfoId, MODE_BUS,
};
use crate::hashed::{
    ids_contains, ids_of, index_get, index_insert, index_new, index_of, IdIndex, IdSet,
};
use crate::id_list::contains_id;
use crate::lines::{is_line, line_of, lines_of, way_lines, with_line, Line, LineTable};
use crate::mots::RouteType;
use crate::osm::{OsmNode, Relation, Way};
use crate::osm_profile::{
    classify_way, cost_at_speed, cost_for_profile, direction_in, highest, infrastructure,
    is_bus_way, is_ferry_way, is_infrastructure_way, is_platform_way, level_in,
    node_flags_for_profile, node_flags_in, oneway, parse_level, parse_preferred_direction, platform,
    preferred_direction_of, profile_for_route_types, profile_of, rail_rule, routing_level,
    speed_for_profile, speed_in, travel_cost, way_dropped_for_profile, way_kept,
    way_kept_for_profile, OsmProfile,
};
use crate::resources::{
    identified, identify_resources_for_profile, kept_relations, same_relation, way_brought,
    IdentifiedResources, PreRelation,
};
use crate::tags::Tags;
use crate::text::str_eq;
use vstd::prelude::*;
use vstd::slice::slice_to_vec;

verus! {

/// Whether a node is needed and lies within the bounds, if there are any.
pub open spec fn wanted(node: OsmNode, needed: Seq<i64>, bbox: Option<BBox>) -> bool {
    needed.contains(node.id) && (bbox is Some ==> bbox->0.holds(node.point))
}

/// The nodes that are wanted, in their order.
pub open spec fn wanted_nodes(nodes: Seq<OsmNode>, needed: Seq<i64>, bbox: Option<BBox>) -> Seq<
    OsmNode,
>
    decreases nodes.len(),
{
    if nodes.len() == 0 {
        Seq::empty()
    } else {
        let rest = wanted_nodes(nodes.drop_last(), needed, bbox);
        if wanted(nodes.last(), needed, bbox) {
            rest.push(nodes.last())
        } else {
            rest
        }
    }
}

/// The positions of nodes by their identifiers. If one occurs twice, its last position counts.
pub open spec fn positions(nodes: Seq<OsmNode>) -> Map<i64, usize>
    decreases nodes.len(),
{
    if nodes.len() == 0 {
        Map::empty()
    } else {
        positions(nodes.drop_last()).insert(nodes.last().id, (nodes.len() - 1) as usize)
    }
}

/// The flags of a node in a graph: those of the profile, and whether turns are restricted there.
pub open spec fn flags_in_graph(node: OsmNode, profile: OsmProfile, via: Set<i64>) -> u8 {
    if via.contains(node.id) {
        (node_flags_in(node.tags, profile) as u8) | NODE_FLAG_RESTRICTION
    } else {
        node_flags_in(node.tags, profile) as u8
    }
}

/// An edge joins the edges unless it is a loop or its ends are joined already.
pub open spec fn with_edge(w: Work, e: WorkView) -> Work {
    if e.from == e.to || leads(w, e.from, e.to) {
        w
    } else {
        w.push(e)
    }
}

/// The nodes of a way that are in the graph, in order: identifiers with positions.
pub open spec fn resolved(nodes: Seq<i64>, index: Map<i64, usize>) -> Seq<(i64, usize)>
    decreases nodes.len(),
{
    if nodes.len() == 0 {
        Seq::empty()
    } else {
        let rest = resolved(nodes.drop_last(), index);
        if index.contains_key(nodes.last()) {
            rest.push((nodes.last(), index[nodes.last()]))
        } else {
            rest
        }
    }
}

/// What all edges of a way have in common.
pub struct Course {
    /// Where the nodes of the graph are.
    pub points: Seq<Point>,
    /// What the edges carry, but for their geometry and whether turns are restricted.
    pub base: EdgeView,
    /// Whether turns on the way are restricted.
    pub restricted: bool,
    /// The nodes at which turns are restricted.
    pub via: Set<i64>,
}

/// The edge between two stops of a way. Turns are restricted on it if they are on the way and at one of
/// its ends.
pub open spec fn segment(c: Course, a: (i64, usize), b: (i64, usize)) -> WorkView {
    WorkView {
        from: a.1,
        to: b.1,
        payload: EdgeView {
            geometry: seq![c.points[a.1 as int], c.points[b.1 as int]],
            restriction: c.restricted && (c.via.contains(a.0) || c.via.contains(b.0)),
            ..c.base
        },
        active: true,
    }
}

/// The edges once the first `k` stops of a way have been joined, each with the next.
pub open spec fn chained(w: Work, stops: Seq<(i64, usize)>, k: int, c: Course) -> Work
    decreases k,
{
    if k <= 1 {
        w
    } else {
        with_edge(chained(w, stops, k - 1, c), segment(c, stops[k - 2], stops[k - 1]))
    }
}

/// Where the nodes of a graph are.
pub open spec fn points_of(nodes: Seq<Node<NodePL>>) -> Seq<Point> {
    nodes.map_values(|n: Node<NodePL>| n.payload.point)
}

/// What the edges of a way carry. They have no cost yet.
pub open spec fn way_payload(way: Way, lines: Seq<TransitInfoId>, profile: OsmProfile) -> EdgeView {
    EdgeView {
        geometry: Seq::empty(),
        lines,
        oneway: direction_in(way.tags, profile),
        cost: 0,
        level: level_in(way.tags, profile) as i32,
        restriction: false,
        is_reverse: false,
        allowed_modes: profile.modes(),
        osmid: way.id,
        preferred_direction: preferred_direction_of(way.tags),
    }
}

/// The course of a way.
pub open spec fn course_of(
    points: Seq<Point>,
    way: Way,
    lines: Seq<TransitInfoId>,
    profile: OsmProfile,
    res: IdentifiedResources,
) -> Course {
    Course {
        points,
        base: way_payload(way, lines, profile),
        restricted: ids_of(res.restricted_ways).contains(way.id),
        via: ids_of(res.restriction_via_nodes),
    }
}

/// Whether a way becomes edges.
pub open spec fn uses_way(way: Way, res: IdentifiedResources, profile: OsmProfile) -> bool {
    &&& res.kept_ways@.contains(way.id)
    &&& way.nodes@.len() > 1
    &&& way_kept(way.tags, way.id, profile, ids_of(res.ways_in_ferry_relations)) || way_brought(
        way,
        profile,
        ids_of(res.ways_in_relations),
    )
}

/// A graph under construction, with the positions and the flags of its nodes.
pub struct RawGraph {
    pub graph: Graph<NodePL, EdgePL>,
    pub index: IdIndex,
    pub flags: Vec<u8>,
}

impl RawGraph {
    pub open spec fn wf(&self) -> bool {
        &&& self.graph.wf()
        &&& self.flags@.len() == self.graph.nodes@.len()
        &&& forall|id: i64| #[trigger]
            index_of(self.index).contains_key(id) ==> index_of(self.index)[id]
                < self.graph.nodes@.len()
    }

    /// An empty graph.
    pub fn new() -> (r: Self)
        ensures
            r.wf(),
            r.graph.nodes@ == Seq::<Node<NodePL>>::empty(),
            r.graph.edges@ == Seq::<Edge<EdgePL>>::empty(),
            r.graph.transit_lines@ == Seq::<TransitInfo>::empty(),
            index_of(r.index) == Map::<i64, usize>::empty(),
            r.flags@ == Seq::<u8>::empty(),
    {
        RawGraph { graph: Graph::new(), index: index_new(), flags: Vec::new() }
    }

    /// Adds a node with its flags under its identifier.
    pub fn put_node(&mut self, id: i64, point: Point, flags: u8)
        requires
            old(self).wf(),
        ensures
            final(self).wf(),
            final(self).graph.edges@ == old(self).graph.edges@,
            final(self).graph.transit_lines@ == old(self).graph.transit_lines@,
            final(self).graph.nodes@.len() == old(self).graph.nodes@.len() + 1,
            final(self).graph.nodes@.drop_last() == old(self).graph.nodes@,
            final(self).graph.nodes@.last().payload == (NodePL { point, comp_id: 0 }),
            index_of(final(self).index) == index_of(old(self).index).insert(
                id,
                old(self).graph.nodes@.len() as usize,
            ),
            final(self).flags@ == old(self).flags@.push(flags),
    {
        let at: usize = self.graph.add_node(NodePL { point, comp_id: 0 });
        proof {
            assert(self.graph.nodes@.drop_last() =~= self.graph.nodes@.take(at as int));
        }
        index_insert(&mut self.index, id, at);
        self.flags.push(flags);
    }

    /// Looks at a node: adds it if it is wanted.
    pub fn add_node(
        &mut self,
        node: &OsmNode,
        res: &IdentifiedResources,
        profile: OsmProfile,
        bbox: Option<BBox>,
    )
        requires
            old(self).wf(),
            res.wf(),
        ensures
            final(self).wf(),
            final(self).graph.edges@ == old(self).graph.edges@,
            final(self).graph.transit_lines@ == old(self).graph.transit_lines@,
            !wanted(*node, res.needed_nodes@, bbox) ==> *final(self) == *old(self),
            wanted(*node, res.needed_nodes@, bbox) ==> {
                &&& final(self).graph.nodes@.len() == old(self).graph.nodes@.len() + 1
                &&& final(self).graph.nodes@.drop_last() == old(self).graph.nodes@
                &&& final(self).graph.nodes@.last().payload == (NodePL {
                    point: node.point,
                    comp_id: 0,
                })
                &&& index_of(final(self).index) == index_of(old(self).index).insert(
                    node.id,
                    old(self).graph.nodes@.len() as usize,
                )
                &&& final(self).flags@ == old(self).flags@.push(
                    flags_in_graph(*node, profile, ids_of(res.restriction_via_nodes)),
                )
            },
    {
        if !contains_id(&res.needed_nodes, node.id) {
            return ;
        }
        if let Some(b) = bbox {
            if !b.contains(node.point) {
                return ;
            }
        }
        let mut flags: u8 = node_flags_for_profile(&node.tags, profile);
        if ids_contains(&res.restriction_via_nodes, node.id) {
            flags = flags | NODE_FLAG_RESTRICTION;
        }
        self.put_node(node.id, node.point, flags);
    }

    /// Joins two nodes by an edge unless they are the same or joined already.
    pub fn put_edge(&mut self, from: NodeIndex, to: NodeIndex, payload: EdgePL)
        requires
            old(self).wf(),
            from < old(self).graph.nodes@.len(),
            to < old(self).graph.nodes@.len(),
        ensures
            final(self).wf(),
            final(self).index == old(self).index,
            final(self).flags == old(self).flags,
            final(self).graph.transit_lines@ == old(self).graph.transit_lines@,
            final(self).graph.nodes@.len() == old(self).graph.nodes@.len(),
            forall|i: int|
                #![trigger final(self).graph.nodes@[i]]
                0 <= i < old(self).graph.nodes@.len() ==> final(self).graph.nodes@[i].payload
                    == old(self).graph.nodes@[i].payload,
            work_of(final(self).graph.edges@) == with_edge(
                work_of(old(self).graph.edges@),
                WorkView { from, to, payload: payload@, active: true },
            ),
    {
        if from == to || directed_edge_exists(&self.graph, from, to) {
            return ;
        }
        let ghost before = self.graph.edges@;
        let ghost view = payload@;
        self.graph.add_edge(from, to, payload);
        proof {
            assert(work_of(self.graph.edges@) =~= work_of(before).push(
                WorkView { from, to, payload: view, active: true },
            ));
        }
    }

    pub(crate) fn stops_of(&self, nodes: &Vec<i64>) -> (r: Vec<(i64, usize)>)
        ensures
            r@ == resolved(nodes@, index_of(self.index)),
    {
        let mut r: Vec<(i64, usize)> = Vec::new();
        let mut i: usize = 0;
        assert(nodes@.take(0) =~= Seq::<i64>::empty());
        while i < nodes.len()
            invariant
                i <= nodes@.len(),
                r@ == resolved(nodes@.take(i as int), index_of(self.index)),
            decreases nodes@.len() - i,
        {
            assert(nodes@.take(i + 1).drop_last() =~= nodes@.take(i as int));
            if let Some(at) = index_get(&self.index, nodes[i]) {
                r.push((nodes[i], at));
            }
            i = i + 1;
        }
        assert(nodes@.take(i as int) =~= nodes@);
        r
    }
}

pub(crate) proof fn lemma_resolved_in_range(nodes: Seq<i64>, index: Map<i64, usize>, n: nat)
    requires
        forall|id: i64| #[trigger] index.contains_key(id) ==> index[id] < n,
    ensures
        forall|i: int|
            #![trigger resolved(nodes, index)[i]]
            0 <= i < resolved(nodes, index).len() ==> resolved(nodes, index)[i].1 < n,
    decreases nodes.len(),
{
    if nodes.len() > 0 {
        lemma_resolved_in_range(nodes.drop_last(), index, n);
        let rest = resolved(nodes.drop_last(), index);
        let all = resolved(nodes, index);
        assert forall|i: int| #![trigger all[i]] 0 <= i < all.len() implies all[i].1 < n by {
            if i < rest.len() {
                assert(all[i] == rest[i]);
            }
        }
    }
}

impl RawGraph {
    /// The edges once a way has been joined.
    pub open spec fn way_edges(&self, w: Work, nodes: Seq<i64>, c: Course) -> Work {
        let stops = resolved(nodes, index_of(self.index));
        chained(w, stops, stops.len() as int, c)
    }

    /// Looks at a way: joins its nodes by edges if it is used. Nodes that are not in the graph are
    /// passed over.
    pub fn add_way(
        &mut self,
        way: &Way,
        lines: &Vec<TransitInfoId>,
        res: &IdentifiedResources,
        profile: OsmProfile,
    )
        requires
            old(self).wf(),
            res.wf(),
        ensures
            final(self).wf(),
            final(self).index == old(self).index,
            final(self).flags == old(self).flags,
            final(self).graph.transit_lines@ == old(self).graph.transit_lines@,
            final(self).graph.nodes@.len() == old(self).graph.nodes@.len(),
            forall|i: int|
                #![trigger final(self).graph.nodes@[i]]
                0 <= i < old(self).graph.nodes@.len() ==> final(self).graph.nodes@[i].payload
                    == old(self).graph.nodes@[i].payload,
            work_of(final(self).graph.edges@) == (if uses_way(*way, *res, profile) {
                old(self).way_edges(
                    work_of(old(self).graph.edges@),
                    way.nodes@,
                    course_of(points_of(old(self).graph.nodes@), *way, lines@, profile, *res),
                )
            } else {
                work_of(old(self).graph.edges@)
            }),
    {
        if !contains_id(&res.kept_ways, way.id) {
            return ;
        }
        let member = ids_contains(&res.ways_in_relations, way.id) && !way_dropped_for_profile(
            way,
            profile,
        );
        let kept = way_kept_for_profile(way, profile, &res.ways_in_ferry_relations);
        if (!kept && !member) || way.nodes.len() <= 1 {
            return ;
        }
        let level: i32 = routing_level(&way.tags, profile);
        let direction: u8 = oneway(&way.tags, profile);
        let preferred: u8 = parse_preferred_direction(&way.tags);
        let modes: u8 = profile.allowed_modes();
        let restricted = ids_contains(&res.restricted_ways, way.id);
        let stops = self.stops_of(&way.nodes);
        let ghost g0 = *self;
        let ghost w0 = work_of(self.graph.edges@);
        let ghost c = course_of(points_of(self.graph.nodes@), *way, lines@, profile, *res);
        proof {
            lemma_resolved_in_range(
                way.nodes@,
                index_of(self.index),
                self.graph.nodes@.len(),
            );
        }
        let mut k: usize = 1;
        while k < stops.len()
            invariant
                1 <= k,
                k == 1 || k <= stops@.len(),
                self.wf(),
                self.index == g0.index,
                self.flags == g0.flags,
                self.graph.transit_lines@ == g0.graph.transit_lines@,
                self.graph.nodes@.len() == g0.graph.nodes@.len(),
                forall|i: int|
                    #![trigger self.graph.nodes@[i]]
                    0 <= i < g0.graph.nodes@.len() ==> self.graph.nodes@[i].payload
                        == g0.graph.nodes@[i].payload,
                forall|i: int|
                    #![trigger stops@[i]]
                    0 <= i < stops@.len() ==> stops@[i].1 < g0.graph.nodes@.len(),
                work_of(self.graph.edges@) == chained(w0, stops@, k as int, c),
                level == level_in(way.tags, profile),
                direction == direction_in(way.tags, profile),
                preferred == preferred_direction_of(way.tags),
                modes == profile.modes(),
                restricted == ids_of(res.restricted_ways).contains(way.id),
                c == course_of(points_of(g0.graph.nodes@), *way, lines@, profile, *res),
            decreases stops@.len() - k,
        {
            let a = stops[k - 1];
            let b = stops[k];
            assert(stops@[k - 1].1 < g0.graph.nodes@.len());
            assert(stops@[k as int].1 < g0.graph.nodes@.len());
            let p: Point = self.graph.nodes[a.1].payload.point;
            let q: Point = self.graph.nodes[b.1].payload.point;
            let mut payload = EdgePL::new();
            payload.geometry.push(p);
            payload.geometry.push(q);
            payload.lines = slice_to_vec(lines.as_slice());
            payload.level = level;
            payload.oneway = direction;
            payload.preferred_direction = preferred;
            payload.allowed_modes = modes;
            payload.osmid = way.id;
            payload.restriction = restricted && (ids_contains(&res.restriction_via_nodes, a.0)
                || ids_contains(&res.restriction_via_nodes, b.0));
            proof {
                assert(payload.geometry@ =~= seq![c.points[a.1 as int], c.points[b.1 as int]]);
                assert(payload@ == segment(c, stops@[k - 1], stops@[k as int]).payload);
            }
            self.put_edge(a.1, b.1, payload);
            k = k + 1;
        }
        proof {
            assert(chained(w0, stops@, k as int, c) == chained(w0, stops@, stops@.len() as int, c));
        }
    }
}

/// The edges once the first `n` ways of an extract have been joined.
pub open spec fn all_edges(
    raw: RawGraph,
    ways: Seq<Way>,
    n: int,
    res: IdentifiedResources,
    profile: OsmProfile,
) -> Work
    decreases n,
{
    if n <= 0 {
        Seq::empty()
    } else {
        let way = ways[n - 1];
        let rest = all_edges(raw, ways, n - 1, res, profile);
        if uses_way(way, res, profile) {
            raw.way_edges(
                rest,
                way.nodes@,
                course_of(
                    points_of(raw.graph.nodes@),
                    way,
                    way_lines(res.pre_relations@, way.id),
                    profile,
                    res,
                ),
            )
        } else {
            rest
        }
    }
}

/// Whether a graph is what an extract becomes before anything is collapsed: the wanted nodes in their
/// order, with their flags, and the edges of the ways that are used.
pub open spec fn is_raw(
    raw: RawGraph,
    res: IdentifiedResources,
    nodes: Seq<OsmNode>,
    ways: Seq<Way>,
    profile: OsmProfile,
    bbox: Option<BBox>,
) -> bool {
    &&& raw.wf()
    &&& nodes_added(raw, res, nodes, profile, bbox)
    &&& raw.graph.transit_lines@.map_values(|i: TransitInfo| i@) == lines_of(res.pre_relations@)
    &&& work_of(raw.graph.edges@) == all_edges(raw, ways, ways.len() as int, res, profile)
}

/// Whether the nodes of a graph are the wanted ones, in their order, with their flags and positions.
pub open spec fn nodes_added(
    raw: RawGraph,
    res: IdentifiedResources,
    nodes: Seq<OsmNode>,
    profile: OsmProfile,
    bbox: Option<BBox>,
) -> bool {
    let kept = wanted_nodes(nodes, res.needed_nodes@, bbox);
    &&& raw.graph.nodes@.len() == kept.len()
    &&& raw.flags@.len() == kept.len()
    &&& index_of(raw.index) == positions(kept)
    &&& forall|i: int|
        #![trigger raw.graph.nodes@[i]]
        0 <= i < kept.len() ==> raw.graph.nodes@[i].payload == (NodePL {
            point: kept[i].point,
            comp_id: 0,
        })
    &&& forall|i: int|
        #![trigger raw.flags@[i]]
        0 <= i < kept.len() ==> raw.flags@[i] == flags_in_graph(
            kept[i],
            profile,
            ids_of(res.restriction_via_nodes),
        )
}

/// Adds the nodes of an extract that are wanted.
fn add_nodes(
    nodes: &Vec<OsmNode>,
    res: &IdentifiedResources,
    profile: OsmProfile,
    bbox: Option<BBox>,
) -> (raw: RawGraph)
    requires
        res.wf(),
    ensures
        raw.wf(),
        raw.graph.edges@ == Seq::<Edge<EdgePL>>::empty(),
        nodes_added(raw, *res, nodes@, profile, bbox),
{
    let mut raw = RawGraph::new();
    let mut i: usize = 0;
    assert(nodes@.take(0) =~= Seq::<OsmNode>::empty());
    while i < nodes.len()
        invariant
            res.wf(),
            i <= nodes@.len(),
            raw.wf(),
            raw.graph.edges@ == Seq::<Edge<EdgePL>>::empty(),
            nodes_added(raw, *res, nodes@.take(i as int), profile, bbox),
        decreases nodes@.len() - i,
    {
        let ghost raw0 = raw;
        raw.add_node(&nodes[i], res, profile, bbox);
        proof {
            let t = nodes@.take(i as int);
            let t1 = nodes@.take(i + 1);
            assert(t1.drop_last() =~= t);
            let kept0 = wanted_nodes(t, res.needed_nodes@, bbox);
            let kept1 = wanted_nodes(t1, res.needed_nodes@, bbox);
            if wanted(nodes@[i as int], res.needed_nodes@, bbox) {
                assert(kept1 == kept0.push(nodes@[i as int]));
                assert(kept1.drop_last() =~= kept0);
                assert forall|k: int| #![trigger raw.graph.nodes@[k]] 0 <= k < kept1.len() implies raw.graph.nodes@[k].payload
                    == (NodePL { point: kept1[k].point, comp_id: 0 }) by {
                    if k < kept0.len() {
                        assert(raw.graph.nodes@.drop_last()[k] == raw0.graph.nodes@[k]);
                    }
                }
            }
        }
        i = i + 1;
    }
    assert(nodes@.take(i as int) =~= nodes@);
    raw
}

/// Builds the graph of an extract before anything is collapsed.
pub fn build_raw(
    res: &IdentifiedResources,
    nodes: &Vec<OsmNode>,
    ways: &Vec<Way>,
    profile: OsmProfile,
    bbox: Option<BBox>,
) -> (raw: RawGraph)
    requires
        res.wf(),
        lines_of(res.pre_relations@).len() <= u32::MAX + 1,
    ensures
        is_raw(raw, *res, nodes@, ways@, profile, bbox),
{
    let mut raw = add_nodes(nodes, res, profile, bbox);
    let table = LineTable::new(&res.pre_relations);
    let ghost rels = res.pre_relations@;
    let ghost raw0 = raw;
    let mut k: usize = 0;
    while k < ways.len()
        invariant
            res.wf(),
            rels == res.pre_relations@,
            lines_of(rels).len() <= u32::MAX + 1,
            table.is_table_of(rels),
            k <= ways@.len(),
            raw.wf(),
            nodes_added(raw0, *res, nodes@, profile, bbox),
            nodes_added(raw, *res, nodes@, profile, bbox),
            work_of(raw.graph.edges@) == all_edges(raw0, ways@, k as int, *res, profile),
        decreases ways@.len() - k,
    {
        let list = table.lines_of_way(ways[k].id);
        let ghost before = raw;
        raw.add_way(&ways[k], &list, res, profile);
        proof {
            assert(list@ == way_lines(rels, ways@[k as int].id));
            assert(points_of(before.graph.nodes@) =~= points_of(raw0.graph.nodes@));
            assert forall|i: int| #![trigger raw.graph.nodes@[i]] 0 <= i < raw.graph.nodes@.len() implies raw.graph.nodes@[i].payload
                == before.graph.nodes@[i].payload by {}
        }
        k = k + 1;
    }
    raw.graph.transit_lines = table.infos;
    proof {
        assert(points_of(raw0.graph.nodes@) =~= points_of(raw.graph.nodes@));
        lemma_same_points(raw0, raw, ways@, ways@.len() as int, *res, profile);
    }
    raw
}

/// Which edges ways become depends on the nodes of a graph only.
proof fn lemma_same_points(
    a: RawGraph,
    b: RawGraph,
    ways: Seq<Way>,
    n: int,
    res: IdentifiedResources,
    profile: OsmProfile,
)
    requires
        index_of(a.index) == index_of(b.index),
        points_of(a.graph.nodes@) == points_of(b.graph.nodes@),
    ensures
        all_edges(a, ways, n, res, profile) == all_edges(b, ways, n, res, profile),
    decreases n,
{
    if n > 0 {
        lemma_same_points(a, b, ways, n - 1, res, profile);
    }
}

/// The lines of relations, each once, in the order in which they first occur.
pub open spec fn relation_lines(rels: Seq<Relation>) -> Seq<Line>
    decreases rels.len(),
{
    if rels.len() == 0 {
        Seq::empty()
    } else {
        let rest = relation_lines(rels.drop_last());
        if is_line(line_of(rels.last().tags)) {
            with_line(rest, line_of(rels.last().tags))
        } else {
            rest
        }
    }
}

proof fn lemma_relation_lines(pre: Seq<PreRelation>, rels: Seq<Relation>)
    requires
        pre.len() == rels.len(),
        forall|i: int|
            #![trigger pre[i]]
            0 <= i < pre.len() ==> same_relation(pre[i], rels[i]),
    ensures
        lines_of(pre) == relation_lines(rels),
    decreases pre.len(),
{
    if pre.len() > 0 {
        assert(same_relation(pre[pre.len() - 1], rels[rels.len() - 1]));
        assert forall|i: int|
            #![trigger pre.drop_last()[i]]
            0 <= i < pre.len() - 1 implies same_relation(
            pre.drop_last()[i],
            rels.drop_last()[i],
        ) by {
            assert(same_relation(pre[i], rels[i]));
        }
        lemma_relation_lines(pre.drop_last(), rels.drop_last());
    }
}

/// A graph whose edges have no costs yet, with the flags of its nodes.
pub struct CollapsedGraph {
    pub graph: Graph<NodePL, EdgePL>,
    pub flags: Vec<u8>,
    pub profile: OsmProfile,
}

/// Whether a graph is what an extract becomes once it has been collapsed.
pub open spec fn read_from(
    r: CollapsedGraph,
    raw: RawGraph,
    res: IdentifiedResources,
    relations: Seq<Relation>,
    nodes: Seq<OsmNode>,
    ways: Seq<Way>,
    bbox: Option<BBox>,
    skip_small_roads: bool,
) -> bool {
    &&& identified(res, relations, ways, r.profile, skip_small_roads)
    &&& is_raw(raw, res, nodes, ways, r.profile, bbox)
    &&& rebuilt(
        raw.graph,
        collapse_upto(work_of(raw.graph.edges@), raw.flags@, raw.graph.nodes@.len() as int),
        raw.flags@,
        r.graph,
        r.flags@,
    )
}

/// Builds graphs from map extracts.
pub struct OsmBuilder;

/// The speed on a way, in thousandths of km/h.
pub open spec fn posted_or_usual_speed(t: Tags, maxspeed: Option<i64>) -> int {
    if maxspeed is None && t.val("highway"@) is None && t.val("railway"@) is None && t.val(
        "aerialway"@,
    ) is Some {
        15_000
    } else {
        crate::osm_load::speed_on(t, maxspeed)
    }
}

/// What a length in millimetres costs on a way.
pub open spec fn cost_by_tags(t: Tags, maxspeed: Option<i64>, length_mm: nat) -> u32 {
    let speed = if t.has3("railway"@, "rail"@, "light_rail"@, "narrow_gauge"@) {
        1000 * speed_in(highest(|n: int| rail_rule(t, n)), OsmProfile::Rail)
    } else {
        posted_or_usual_speed(t, maxspeed)
    };
    travel_cost(
        length_mm,
        if speed < 360 {
            360
        } else {
            speed as nat
        },
    )
}

impl OsmBuilder {
    /// Whether a way has at least two nodes.
    pub fn is_valid_way(way: &Way) -> (r: bool)
        ensures
            r == (way.nodes@.len() > 1),
    {
        way.nodes.len() > 1
    }

    /// Whether members with this role belong to the course of a route.
    pub fn is_route_geometry_role(role: &str) -> (r: bool)
        ensures
            r == (role@ == ""@ || role@ == "forward"@ || role@ == "backward"@),
    {
        str_eq(role, "") || str_eq(role, "forward") || str_eq(role, "backward")
    }

    /// The speed on a way, in thousandths of km/h: the posted limit, if there is one.
    pub fn get_speed(tags: &Tags, maxspeed: Option<i64>) -> (r: i64)
        ensures
            r == posted_or_usual_speed(*tags, maxspeed),
    {
        if maxspeed.is_none() && !tags.contains_key("highway") && !tags.contains_key("railway")
            && tags.contains_key("aerialway") {
            return 15_000;
        }
        crate::osm_load::OsmBuilder::get_speed(tags, maxspeed)
    }

    /// What a length in millimetres costs on a way: on railways by its level, elsewhere by its speed, which
    /// is at least that of someone who walks very slowly.
    pub fn calculate_cost(tags: &Tags, maxspeed: Option<i64>, length_mm: u64) -> (r: u32)
        ensures
            r == cost_by_tags(*tags, maxspeed, length_mm as nat),
    {
        let speed: i64 = if tags.is3("railway", "rail", "light_rail", "narrow_gauge") {
            let level: i32 = parse_level(tags);
            1000 * (speed_for_profile(level, OsmProfile::Rail) as i64)
        } else {
            OsmBuilder::get_speed(tags, maxspeed)
        };
        let speed: u64 = if speed < 360 {
            360
        } else {
            speed as u64
        };
        cost_at_speed(length_mm, speed)
    }

    /// Whether a way is a track, a road, a line in the air or on water, and no platform.
    pub fn is_infrastructure(way: &Way) -> (r: bool)
        ensures
            r == infrastructure(way.tags),
    {
        is_infrastructure_way(way)
    }

    /// Whether a way is a platform or a station rather than a track or a road.
    pub fn is_platform(way: &Way) -> (r: bool)
        ensures
            r == platform(way.tags),
    {
        is_platform_way(way)
    }

    /// Which modes may use a way: rail, tram, subway, bus, ferry and gondola.
    pub fn classify_way(way: &Way, ferry_ways: &IdSet) -> (r: (
        bool,
        bool,
        bool,
        bool,
        bool,
        bool,
    ))
        ensures
            r.0 == way.tags.has3("railway"@, "rail"@, "light_rail"@, "narrow_gauge"@),
            r.1 == way.tags.has("railway"@, "tram"@),
            r.2 == way.tags.has("railway"@, "subway"@),
            r.3 == is_bus_way(way.tags, way.id, ids_of(*ferry_ways)),
            r.4 == is_ferry_way(way.tags, way.id, ids_of(*ferry_ways)),
            r.5 == (way.tags.val("aerialway"@) is Some),
    {
        classify_way(way, ferry_ways)
    }

    /// Finds what the road network of buses needs of an extract.
    pub fn identify_resources(
        relations: Vec<Relation>,
        ways: &Vec<Way>,
        skip_small_roads: bool,
    ) -> (res: IdentifiedResources)
        ensures
            identified(res, relations@, ways@, OsmProfile::Bus, skip_small_roads),
    {
        identify_resources_for_profile(relations, ways, OsmProfile::Bus, skip_small_roads)
    }

    /// Finds what a network of several modes needs of an extract.
    pub fn identify_resources_for_modes(
        relations: Vec<Relation>,
        ways: &Vec<Way>,
        skip_small_roads: bool,
        mode_mask: u8,
    ) -> (res: IdentifiedResources)
        ensures
            identified(
                res,
                relations@,
                ways@,
                if mode_mask == MODE_BUS {
                    OsmProfile::Bus
                } else {
                    OsmProfile::Generic(mode_mask)
                },
                skip_small_roads,
            ),
    {
        let profile = if mode_mask == MODE_BUS {
            OsmProfile::Bus
        } else {
            OsmProfile::Generic(mode_mask)
        };
        identify_resources_for_profile(relations, ways, profile, skip_small_roads)
    }

    /// Builds the graph that serves route types from an extract, and collapses it.
    pub fn read(
        relations: Vec<Relation>,
        nodes: &Vec<OsmNode>,
        ways: &Vec<Way>,
        used_route_types: &Vec<RouteType>,
        bbox: Option<BBox>,
        skip_small_roads: bool,
    ) -> (r: CollapsedGraph)
        requires
            relation_lines(kept_relations(relations@, profile_of(used_route_types@))).len()
                <= u32::MAX + 1,
        ensures
            r.graph.wf(),
            r.profile == profile_of(used_route_types@),
            exists|raw: RawGraph, res: IdentifiedResources| #[trigger]
                read_from(r, raw, res, relations@, nodes@, ways@, bbox, skip_small_roads),
    {
        let profile = profile_for_route_types(used_route_types);
        let ghost rels = relations@;
        let res = identify_resources_for_profile(relations, ways, profile, skip_small_roads);
        proof {
            lemma_relation_lines(res.pre_relations@, kept_relations(rels, profile));
        }
        let raw = build_raw(&res, nodes, ways, profile, bbox);
        let ghost raw0 = raw;
        let mut graph = raw.graph;
        let mut flags = raw.flags;
        collapse_edges(&mut graph, &mut flags);
        let r = CollapsedGraph { graph, flags, profile };
        assert(read_from(r, raw0, res, rels, nodes@, ways@, bbox, skip_small_roads));
        r
    }

    /// The costs of edges whose lengths are given in millimetres.
    pub fn edge_costs(
        graph: &Graph<NodePL, EdgePL>,
        lengths_mm: &Vec<u64>,
        profile: OsmProfile,
    ) -> (r: Vec<u32>)
        requires
            lengths_mm@.len() == graph.edges@.len(),
        ensures
            r@ == level_costs(work_of(graph.edges@), lengths_mm@, profile),
    {
        let mut r: Vec<u32> = Vec::new();
        let mut k: usize = 0;
        while k < graph.edges.len()
            invariant
                lengths_mm@.len() == graph.edges@.len(),
                k <= graph.edges@.len(),
                r@.len() == k,
                forall|j: int|
                    #![trigger r@[j]]
                    0 <= j < k ==> r@[j] == travel_cost(
                        lengths_mm@[j] as nat,
                        (1000 * speed_in(graph.edges@[j].payload.level as int, profile)) as nat,
                    ),
            decreases graph.edges@.len() - k,
        {
            r.push(cost_for_profile(graph.edges[k].payload.level, profile, lengths_mm[k]));
            k = k + 1;
        }
        assert(r@ =~= level_costs(work_of(graph.edges@), lengths_mm@, profile));
        r
    }

    /// Finishes a collapsed graph, given the lengths of its edges in millimetres.
    pub fn finish(collapsed: CollapsedGraph, lengths_mm: &Vec<u64>) -> (graph: Graph<
        NodePL,
        EdgePL,
    >)
        requires
            collapsed.graph.wf(),
            lengths_mm@.len() == collapsed.graph.edges@.len(),
        ensures
            graph.wf(),
            graph.transit_lines@ == collapsed.graph.transit_lines@,
            graph.nodes@.len() == collapsed.graph.nodes@.len(),
            forall|v: int|
                #![trigger graph.nodes@[v]]
                0 <= v < graph.nodes@.len() ==> graph.nodes@[v].payload.point
                    == collapsed.graph.nodes@[v].payload.point && is_number(
                    collapsed.graph.edges@,
                    v,
                    graph.nodes@[v].payload.comp_id as int,
                ),
            work_of(graph.edges@) == finished(
                work_of(collapsed.graph.edges@),
                level_costs(
                    work_of(collapsed.graph.edges@),
                    lengths_mm@,
                    collapsed.profile,
                ),
                collapsed.profile.penalty_factor(),
                collapsed.profile.entry_seconds(),
            ),
    {
        let costs = Self::edge_costs(&collapsed.graph, lengths_mm, collapsed.profile);
        let mut graph = collapsed.graph;
        finish_graph(
            &mut graph,
            &costs,
            collapsed.profile.one_way_penalty_factor(),
            collapsed.profile.one_way_entry_cost_seconds(),
        );
        graph
    }
}

/// The costs of edges by their lengths in millimetres and the speeds of their levels.
pub open spec fn level_costs(w: Work, lengths_mm: Seq<u64>, profile: OsmProfile) -> Seq<u32> {
    Seq::new(
        w.len(),
        |k: int|
            travel_cost(
                lengths_mm[k] as nat,
                (1000 * speed_in(w[k].payload.level as int, profile)) as nat,
            ),
    )
}

// What the nodes and ways of an extract become.

/// The nodes of the graph are those of the extract that are needed and, if there are bounds, lie within them, in
/// the order of the extract.
pub proof fn lemma_wanted_nodes(nodes: Seq<OsmNode>, needed: Seq<i64>, bbox: Option<BBox>)
    ensures
        wanted_nodes(nodes, needed, bbox) == nodes.filter(
            |n: OsmNode|
                needed.contains(n.id) && match bbox {
                    Some(b) => b.min_x <= n.point.x <= b.max_x && b.min_y <= n.point.y <= b.max_y,
                    None => true,
                },
        ),
    decreases nodes.len(),
{
    reveal(Seq::filter);
    if nodes.len() > 0 {
        lemma_wanted_nodes(nodes.drop_last(), needed, bbox);
    }
}

/// A node is found by its identifier at the last position at which it occurs.
pub proof fn lemma_positions(nodes: Seq<OsmNode>, id: i64)
    requires
        nodes.len() <= usize::MAX,
    ensures
        positions(nodes).contains_key(id) <==> exists|i: int|
            0 <= i < nodes.len() && (#[trigger] nodes[i]).id == id,
        positions(nodes).contains_key(id) ==> positions(nodes)[id] < nodes.len() && nodes[positions(
            nodes,
        )[id] as int].id == id && forall|j: int|
            positions(nodes)[id] < j < nodes.len() ==> (#[trigger] nodes[j]).id != id,
    decreases nodes.len(),
{
    if nodes.len() > 0 {
        let rest = nodes.drop_last();
        lemma_positions(rest, id);
        let n = nodes.len() - 1;
        assert(nodes[n] == nodes.last());
        if positions(rest).contains_key(id) {
            let i = positions(rest)[id] as int;
            assert(nodes[i] == rest[i]);
            assert(nodes[i].id == id);
            assert forall|j: int| i < j < n implies (#[trigger] nodes[j]).id != id by {
                assert(nodes[j] == rest[j]);
            }
        }
        if exists|i: int| 0 <= i < nodes.len() && (#[trigger] nodes[i]).id == id {
            let i = choose|i: int| 0 <= i < nodes.len() && (#[trigger] nodes[i]).id == id;
            if i < n {
                assert(rest[i].id == id);
            }
        }
    }
}

/// The nodes of a way that are in the graph are those of the way with a position, in the order of the way.
pub proof fn lemma_resolved(nodes: Seq<i64>, index: Map<i64, usize>)
    ensures
        resolved(nodes, index) == nodes.filter(|id: i64| index.contains_key(id)).map_values(
            |id: i64| (id, index[id]),
        ),
    decreases nodes.len(),
{
    reveal(Seq::filter);
    if nodes.len() > 0 {
        lemma_resolved(nodes.drop_last(), index);
        let kept = nodes.filter(|id: i64| index.contains_key(id));
        assert(resolved(nodes, index) =~= kept.map_values(|id: i64| (id, index[id])));
    }
}

/// Whether no two edges lead from the same node to the same node.
pub open spec fn leads_once(w: Work) -> bool {
    forall|i: int, j: int|
        #![trigger w[i], w[j]]
        0 <= i < j < w.len() ==> w[i].from != w[j].from || w[i].to != w[j].to
}

/// Whether an edge joins two nodes that follow one another on a way, straight from the one to the other.
pub open spec fn joins_next(stops: Seq<(i64, usize)>, points: Seq<Point>, e: WorkView, j: int) -> bool {
    &&& 0 < j < stops.len()
    &&& e.from == stops[j - 1].1
    &&& e.to == stops[j].1
    &&& e.payload.geometry == seq![points[e.from as int], points[e.to as int]]
}

proof fn lemma_chained(w: Work, stops: Seq<(i64, usize)>, k: int, c: Course)
    requires
        k <= stops.len(),
        leads_once(w),
    ensures
        ({
            let r = chained(w, stops, k, c);
            &&& r.len() >= w.len()
            &&& forall|i: int| 0 <= i < w.len() ==> #[trigger] r[i] == w[i]
            &&& forall|i: int|
                #![trigger r[i]]
                w.len() <= i < r.len() ==> r[i].from != r[i].to && r[i].payload.osmid
                    == c.base.osmid && exists|j: int| #[trigger] joins_next(stops, c.points, r[i], j)
            &&& forall|j: int|
                #![trigger stops[j]]
                0 < j < k && stops[j - 1].1 != stops[j].1 ==> leads(
                    r,
                    stops[j - 1].1,
                    stops[j].1,
                )
            &&& leads_once(r)
        }),
    decreases k,
{
    if k > 1 {
        lemma_chained(w, stops, k - 1, c);
        let before = chained(w, stops, k - 1, c);
        let e = segment(c, stops[k - 2], stops[k - 1]);
        let r = with_edge(before, e);
        assert forall|i: int| #![trigger r[i]] w.len() <= i < r.len() implies r[i].from != r[i].to
            && r[i].payload.osmid == c.base.osmid && exists|j: int| #[trigger]
            joins_next(stops, c.points, r[i], j) by {
            if i < before.len() {
                assert(r[i] == before[i]);
            } else {
                assert(joins_next(stops, c.points, r[i], k - 1));
            }
        }
        assert forall|j: int|
            #![trigger stops[j]]
            0 < j < k && stops[j - 1].1 != stops[j].1 implies leads(
            r,
            stops[j - 1].1,
            stops[j].1,
        ) by {
            if j < k - 1 || r.len() == before.len() {
                assert(leads(before, stops[j - 1].1, stops[j].1));
                let i = choose|i: int|
                    0 <= i < before.len() && (#[trigger] before[i]).from == stops[j - 1].1
                        && before[i].to == stops[j].1;
                assert(r[i] == before[i]);
            } else {
                assert(r[before.len() as int] == e);
            }
        }
        assert forall|i: int, j: int|
            #![trigger r[i], r[j]]
            0 <= i < j < r.len() implies r[i].from != r[j].from || r[i].to != r[j].to by {
            assert(r[i] == before[i]);
            if j < before.len() {
                assert(r[j] == before[j]);
            }
        }
    }
}

/// Whether an edge belongs to a way that is used: it joins two nodes that follow one another on it.
pub open spec fn is_edge_of(
    raw: RawGraph,
    way: Way,
    res: IdentifiedResources,
    profile: OsmProfile,
    e: WorkView,
) -> bool {
    &&& uses_way(way, res, profile)
    &&& e.payload.osmid == way.id
    &&& exists|j: int| #[trigger]
        joins_next(
            resolved(way.nodes@, index_of(raw.index)),
            points_of(raw.graph.nodes@),
            e,
            j,
        )
}

/// Each edge belongs to a way that is used and joins two nodes that follow one another on it, those of the way
/// that are not in the graph left out. Each two such nodes are joined, unless they are the same, and no two edges
/// lead from the same node to the same node.
pub proof fn lemma_edges_of_ways(
    raw: RawGraph,
    ways: Seq<Way>,
    n: int,
    res: IdentifiedResources,
    profile: OsmProfile,
)
    requires
        0 <= n <= ways.len(),
    ensures
        ({
            let r = all_edges(raw, ways, n, res, profile);
            &&& leads_once(r)
            &&& forall|i: int|
                #![trigger r[i]]
                0 <= i < r.len() ==> r[i].from != r[i].to && exists|k: int|
                    0 <= k < n && #[trigger] is_edge_of(raw, ways[k], res, profile, r[i])
            &&& forall|k: int, j: int|
                #![trigger resolved(ways[k].nodes@, index_of(raw.index))[j]]
                0 <= k < n && uses_way(ways[k], res, profile) && 0 < j < resolved(
                    ways[k].nodes@,
                    index_of(raw.index),
                ).len() ==> {
                    let stops = resolved(ways[k].nodes@, index_of(raw.index));
                    stops[j - 1].1 != stops[j].1 ==> leads(r, stops[j - 1].1, stops[j].1)
                }
        }),
    decreases n,
{
    if n > 0 {
        lemma_edges_of_ways(raw, ways, n - 1, res, profile);
        let before = all_edges(raw, ways, n - 1, res, profile);
        let r = all_edges(raw, ways, n, res, profile);
        let way = ways[n - 1];
        let last = resolved(way.nodes@, index_of(raw.index));
        let c = course_of(
            points_of(raw.graph.nodes@),
            way,
            way_lines(res.pre_relations@, way.id),
            profile,
            res,
        );
        if uses_way(way, res, profile) {
            lemma_chained(before, last, last.len() as int, c);
        }
        assert forall|i: int| #![trigger r[i]] 0 <= i < r.len() implies r[i].from != r[i].to
            && exists|k: int| 0 <= k < n && #[trigger] is_edge_of(raw, ways[k], res, profile, r[i]) by {
            if i < before.len() {
                assert(r[i] == before[i]);
                let k = choose|k: int|
                    0 <= k < n - 1 && #[trigger] is_edge_of(raw, ways[k], res, profile, before[i]);
                assert(is_edge_of(raw, ways[k], res, profile, r[i]));
            } else {
                assert(is_edge_of(raw, ways[n - 1], res, profile, r[i]));
            }
        }
        assert forall|k: int, j: int|
            #![trigger resolved(ways[k].nodes@, index_of(raw.index))[j]]
            0 <= k < n && uses_way(ways[k], res, profile) && 0 < j < resolved(
                ways[k].nodes@,
                index_of(raw.index),
            ).len() implies {
            let stops = resolved(ways[k].nodes@, index_of(raw.index));
            stops[j - 1].1 != stops[j].1 ==> leads(r, stops[j - 1].1, stops[j].1)
        } by {
            let stops = resolved(ways[k].nodes@, index_of(raw.index));
            assert(stops[j] == resolved(ways[k].nodes@, index_of(raw.index))[j]);
            if k < n - 1 && stops[j - 1].1 != stops[j].1 {
                assert(leads(before, stops[j - 1].1, stops[j].1));
                let i = choose|i: int|
                    0 <= i < before.len() && (#[trigger] before[i]).from == stops[j - 1].1
                        && before[i].to == stops[j].1;
                assert(r[i] == before[i]);
            }
        }
    }
}

/// A node is marked if and only if turns are restricted at it; its other flags stay.
pub proof fn lemma_flags_in_graph(node: OsmNode, profile: OsmProfile, via: Set<i64>)
    ensures
        flags_in_graph(node, profile, via) & NODE_FLAG_RESTRICTION != 0 <==> via.contains(node.id),
        flags_in_graph(node, profile, via) & 3u8 == node_flags_in(node.tags, profile),
{
    let f = node_flags_in(node.tags, profile) as u8;
    assert(f <= 3);
    assert((f | NODE_FLAG_RESTRICTION) & NODE_FLAG_RESTRICTION != 0 && (f | NODE_FLAG_RESTRICTION) & 3
        == f && f & NODE_FLAG_RESTRICTION == 0 && f & 3 == f) by (bit_vector)
        requires
            f <= 3,
    ;
}

/// Turns are restricted on an edge of a way on which they are, in whichever direction the edge is read, as soon
/// as one of its ends is where a restricted turn takes place; elsewhere they are not.
pub proof fn lemma_restricted_edges(c: Course, a: (i64, usize), b: (i64, usize))
    ensures
        c.restricted && c.via.contains(a.0) ==> segment(c, a, b).payload.restriction && segment(
            c,
            b,
            a,
        ).payload.restriction,
        !c.restricted ==> !segment(c, a, b).payload.restriction,
        !c.via.contains(a.0) && !c.via.contains(b.0) ==> !segment(c, a, b).payload.restriction,
{
}

} // verus!
