//! The nodes and edges of a network for all modes.

use crate::collapse::{work_of, Work, WorkView};
use crate::edge_attrs::NamedLine;
use crate::geometry::{BBox, Point};
use crate::graph::{Edge, EdgePL, EdgeView, Graph, NodePL};
use crate::hashed::{
    id_slots_insert, id_slots_new, ids_contains, ids_of, index_of, slots_at, IdLists, IdSlots,
};
use crate::id_list::{contains_id, rising};
use crate::network::{
    is_infra, is_member, lists_ways, numbers_for_way, numbers_of_way, NetworkResources,
};
use crate::osm::{OsmNode, Way};
use crate::osm_builder::{
    joins_next, lemma_resolved, lemma_resolved_in_range, points_of, positions, resolved, segment,
    wanted, wanted_nodes, Course, RawGraph,
};
use crate::osm_load::{layer_of, modes_on, oneway_of, preferred_direction, OsmBuilder};
use crate::tags::Tags;
use vstd::prelude::*;

verus! {

/// Whether tags are those of a place where one waits rather than of a track or a road.
pub open spec fn is_stop_tagged(t: Tags) -> bool {
    ||| t.has2("railway"@, "stop"@, "platform_edge"@)
    ||| t.has3("public_transport"@, "stop_position"@, "platform"@, "station"@)
}

/// Whether the nodes of a graph are the wanted ones, in their order, with their positions. The flag of a
/// node is 1 if it is a stop.
pub open spec fn nodes_placed(
    raw: RawGraph,
    needed: Seq<i64>,
    nodes: Seq<OsmNode>,
    bbox: Option<BBox>,
) -> bool {
    let kept = wanted_nodes(nodes, needed, bbox);
    &&& raw.graph.nodes@.len() == kept.len()
    &&& raw.flags@.len() == kept.len()
    &&& index_of(raw.index) == positions(kept)
    &&& forall|i: int|
        #![trigger raw.graph.nodes@[i]]
        0 <= i < kept.len() ==> raw.graph.nodes@[i].payload.point == kept[i].point
    &&& forall|i: int|
        #![trigger raw.flags@[i]]
        0 <= i < kept.len() ==> raw.flags@[i] == (if is_stop_tagged(kept[i].tags) {
            1u8
        } else {
            0u8
        })
}

/// Adds the nodes of an extract that are wanted.
pub(crate) fn place_nodes(nodes: &Vec<OsmNode>, needed: &Vec<i64>, bbox: Option<BBox>) -> (raw:
    RawGraph)
    requires
        rising(needed@),
    ensures
        raw.wf(),
        raw.graph.edges@ == Seq::<Edge<EdgePL>>::empty(),
        nodes_placed(raw, needed@, nodes@, bbox),
{
    let mut raw = RawGraph::new();
    let mut i: usize = 0;
    assert(nodes@.take(0) =~= Seq::<OsmNode>::empty());
    while i < nodes.len()
        invariant
            rising(needed@),
            i <= nodes@.len(),
            raw.wf(),
            raw.graph.edges@ == Seq::<Edge<EdgePL>>::empty(),
            nodes_placed(raw, needed@, nodes@.take(i as int), bbox),
        decreases nodes@.len() - i,
    {
        let ghost raw0 = raw;
        let ghost t = nodes@.take(i as int);
        let ghost t1 = nodes@.take(i + 1);
        let ghost kept0 = wanted_nodes(t, needed@, bbox);
        let ghost kept1 = wanted_nodes(t1, needed@, bbox);
        assert(t1.drop_last() =~= t);
        let node = &nodes[i];
        let inside = match bbox {
            Some(b) => b.contains(node.point),
            None => true,
        };
        if contains_id(needed, node.id) && inside {
            let stop = node.tags.is2("railway", "stop", "platform_edge") || node.tags.is3(
                "public_transport",
                "stop_position",
                "platform",
                "station",
            );
            raw.put_node(
                node.id,
                node.point,
                if stop {
                    1
                } else {
                    0
                },
            );
            proof {
                assert(kept1 == kept0.push(nodes@[i as int]));
                assert(kept1.drop_last() =~= kept0);
                assert forall|k: int| #![trigger raw.graph.nodes@[k]] 0 <= k < kept1.len() implies raw.graph.nodes@[k].payload.point
                    == kept1[k].point by {
                    if k < kept0.len() {
                        assert(raw.graph.nodes@.drop_last()[k] == raw0.graph.nodes@[k]);
                    }
                }
            }
        }
        i = i + 1;
    }
    assert(nodes@.take(i as int) =~= nodes@);
    raw
}

/// What ways become edges on.
pub struct Ground {
    /// Where the identifiers of nodes are found in the graph.
    pub index: Map<i64, usize>,
    /// Where the nodes of the graph are.
    pub points: Seq<Point>,
    pub res: NetworkResources,
    pub lines: Seq<NamedLine>,
}

/// Whether a way is used at all.
pub open spec fn is_used(w: Way, res: NetworkResources) -> bool {
    w.nodes@.len() > 1 && (is_infra(w, res) || is_member(w, res))
}

/// The nodes of a way that are in the graph.
pub open spec fn stops_on(g: Ground, w: Way) -> Seq<(i64, usize)> {
    resolved(w.nodes@, g.index)
}

/// Whether a way becomes edges.
pub open spec fn builds(g: Ground, w: Way) -> bool {
    is_used(w, g.res) && is_infra(w, g.res) && stops_on(g, w).len() > 1
}

/// What the edges of a way carry. They have no cost yet.
pub open spec fn network_payload(g: Ground, w: Way) -> EdgeView {
    EdgeView {
        geometry: Seq::empty(),
        lines: numbers_of_way(g.res.pre_relations@, g.lines, w.id),
        oneway: oneway_of(w.tags),
        cost: 0,
        level: layer_of(w.tags) as i32,
        restriction: false,
        is_reverse: false,
        allowed_modes: modes_on(w, ids_of(g.res.ways_in_ferry_relations)),
        osmid: w.id,
        preferred_direction: preferred_direction(w.tags),
    }
}

/// The course of a way.
pub open spec fn course_on(g: Ground, w: Way) -> Course {
    Course {
        points: g.points,
        base: network_payload(g, w),
        restricted: false,
        via: Set::empty(),
    }
}

/// The edges between the stops of a way, each joined with the next.
pub open spec fn segments_upto(c: Course, stops: Seq<(i64, usize)>, n: int) -> Work {
    Seq::new(n as nat, |k: int| segment(c, stops[k], stops[k + 1]))
}

/// The edges of the first `n` ways.
pub open spec fn network_edges(g: Ground, ways: Seq<Way>, n: int) -> Work
    decreases n,
{
    if n <= 0 {
        Seq::empty()
    } else if builds(g, ways[n - 1]) {
        network_edges(g, ways, n - 1) + segments_upto(
            course_on(g, ways[n - 1]),
            stops_on(g, ways[n - 1]),
            stops_on(g, ways[n - 1]).len() - 1,
        )
    } else {
        network_edges(g, ways, n - 1)
    }
}

/// For each edge of the first `n` ways the way that it comes from.
pub open spec fn edge_sources(g: Ground, ways: Seq<Way>, n: int) -> Seq<usize>
    decreases n,
{
    if n <= 0 {
        Seq::empty()
    } else if builds(g, ways[n - 1]) {
        edge_sources(g, ways, n - 1) + Seq::new(
            (stops_on(g, ways[n - 1]).len() - 1) as nat,
            |k: int| (n - 1) as usize,
        )
    } else {
        edge_sources(g, ways, n - 1)
    }
}

/// The nodes of those of the first `n` ways that belong to relations. If an identifier occurs twice, its
/// last way counts.
pub open spec fn member_paths(g: Ground, ways: Seq<Way>, n: int) -> Map<i64, Seq<usize>>
    decreases n,
{
    if n <= 0 {
        Map::empty()
    } else {
        let w = ways[n - 1];
        let rest = member_paths(g, ways, n - 1);
        if is_used(w, g.res) && is_member(w, g.res) && stops_on(g, w).len() > 0 {
            rest.insert(w.id, places(stops_on(g, w)))
        } else {
            rest
        }
    }
}

/// The nodes of the graph that stops stand for.
pub open spec fn places(stops: Seq<(i64, usize)>) -> Seq<usize> {
    stops.map_values(|s: (i64, usize)| s.1)
}

/// The numbers of the edges of the first `n` ways. If an identifier occurs twice, its last way counts.
pub open spec fn way_edge_numbers(g: Ground, ways: Seq<Way>, n: int) -> Map<i64, Seq<usize>>
    decreases n,
{
    if n <= 0 {
        Map::empty()
    } else {
        let w = ways[n - 1];
        let rest = way_edge_numbers(g, ways, n - 1);
        if builds(g, w) {
            rest.insert(
                w.id,
                numbers_from(network_edges(g, ways, n - 1).len() as int, stops_on(g, w).len() - 1),
            )
        } else {
            rest
        }
    }
}

/// Consecutive numbers.
pub open spec fn numbers_from(first: int, n: int) -> Seq<usize> {
    Seq::new(n as nat, |k: int| (first + k) as usize)
}

/// Whether a way stops at a node.
pub open spec fn stops_at(stops: Seq<(i64, usize)>, v: int) -> bool {
    exists|k: int| 0 <= k < stops.len() && (#[trigger] stops[k]).1 == v
}

/// The modes of those of the first `n` ways that are used and stop at a node.
pub open spec fn modes_at(g: Ground, ways: Seq<Way>, n: int, v: int) -> u8
    decreases n,
{
    if n <= 0 {
        0
    } else {
        let w = ways[n - 1];
        let rest = modes_at(g, ways, n - 1, v);
        if is_used(w, g.res) && stops_at(stops_on(g, w), v) {
            rest | modes_on(w, ids_of(g.res.ways_in_ferry_relations))
        } else {
            rest
        }
    }
}

/// A network under construction.
pub struct NetworkParts {
    pub raw: RawGraph,
    /// For each edge the position of its way.
    pub edge_ways: Vec<usize>,
    /// The nodes of the ways that belong to relations.
    pub way_nodes: IdSlots,
    /// The edges of ways.
    pub way_edges: IdSlots,
    /// For each node the modes of the ways that stop there.
    pub node_modes: Vec<u8>,
}

/// Whether the parts of a network are those that the first `n` ways give.
pub open spec fn parts_of(p: NetworkParts, g: Ground, ways: Seq<Way>, n: int) -> bool {
    &&& p.raw.wf()
    &&& index_of(p.raw.index) == g.index
    &&& points_of(p.raw.graph.nodes@) == g.points
    &&& work_of(p.raw.graph.edges@) == network_edges(g, ways, n)
    &&& p.edge_ways@ == edge_sources(g, ways, n)
    &&& slots_at(p.way_nodes) == member_paths(g, ways, n)
    &&& slots_at(p.way_edges) == way_edge_numbers(g, ways, n)
    &&& p.node_modes@.len() == g.points.len()
    &&& forall|v: int|
        #![trigger p.node_modes@[v]]
        0 <= v < p.node_modes@.len() ==> p.node_modes@[v] == modes_at(g, ways, n, v)
}

fn mark_nodes(node_modes: &mut Vec<u8>, stops: &Vec<(i64, usize)>, modes: u8)
    requires
        forall|i: int|
            #![trigger stops@[i]]
            0 <= i < stops@.len() ==> stops@[i].1 < old(node_modes)@.len(),
    ensures
        final(node_modes)@.len() == old(node_modes)@.len(),
        forall|v: int|
            #![trigger final(node_modes)@[v]]
            0 <= v < old(node_modes)@.len() ==> final(node_modes)@[v] == (if stops_at(stops@, v) {
                old(node_modes)@[v] | modes
            } else {
                old(node_modes)@[v]
            }),
{
    let ghost m0 = node_modes@;
    let mut i: usize = 0;
    while i < stops.len()
        invariant
            i <= stops@.len(),
            node_modes@.len() == m0.len(),
            forall|i: int|
                #![trigger stops@[i]]
                0 <= i < stops@.len() ==> stops@[i].1 < m0.len(),
            forall|v: int|
                #![trigger node_modes@[v]]
                0 <= v < m0.len() ==> node_modes@[v] == (if stops_at(stops@.take(i as int), v) {
                    m0[v] | modes
                } else {
                    m0[v]
                }),
        decreases stops@.len() - i,
    {
        let at: usize = stops[i].1;
        assert(stops@[i as int].1 < m0.len());
        let ghost before = node_modes@;
        let was: u8 = node_modes[at];
        node_modes.set(at, was | modes);
        proof {
            let t0 = stops@.take(i as int);
            let t1 = stops@.take(i + 1);
            assert forall|v: int| #[trigger] stops_at(t1, v) <==> stops_at(t0, v) || v == at by {
                if stops_at(t0, v) {
                    let k = choose|k: int| 0 <= k < t0.len() && (#[trigger] t0[k]).1 == v;
                    assert(t1[k].1 == v);
                }
                if v == at {
                    assert(t1[i as int].1 == v);
                }
                if stops_at(t1, v) && v != at {
                    let k = choose|k: int| 0 <= k < t1.len() && (#[trigger] t1[k]).1 == v;
                    assert(t0[k].1 == v);
                }
            }
            let m: u8 = m0[at as int];
            assert((m | modes) | modes == m | modes) by (bit_vector);
        }
        i = i + 1;
    }
    assert(stops@.take(i as int) =~= stops@);
}

/// Joins the stops of a way by edges, each with the next, and says which edges these are.
fn join_stops(
    graph: &mut Graph<NodePL, EdgePL>,
    stops: &Vec<(i64, usize)>,
    base: &EdgePL,
    Ghost(c): Ghost<Course>,
) -> (created: Vec<usize>)
    requires
        old(graph).wf(),
        stops@.len() > 1,
        forall|i: int|
            #![trigger stops@[i]]
            0 <= i < stops@.len() ==> stops@[i].1 < old(graph).nodes@.len(),
        c.points == points_of(old(graph).nodes@),
        c.base == base@,
        base.geometry@.len() == 0,
        !c.restricted,
        !base.restriction,
    ensures
        final(graph).wf(),
        final(graph).transit_lines@ == old(graph).transit_lines@,
        points_of(final(graph).nodes@) == points_of(old(graph).nodes@),
        work_of(final(graph).edges@) == work_of(old(graph).edges@) + segments_upto(
            c,
            stops@,
            stops@.len() - 1,
        ),
        created@ == numbers_from(old(graph).edges@.len() as int, stops@.len() - 1),
{
    let ghost g0 = *graph;
    let ghost w0 = work_of(graph.edges@);
    let mut created: Vec<usize> = Vec::new();
    let mut k: usize = 1;
    assert(w0 + segments_upto(c, stops@, 0) =~= w0);
    while k < stops.len()
        invariant
            1 <= k <= stops@.len(),
            graph.wf(),
            graph.transit_lines@ == g0.transit_lines@,
            graph.nodes@.len() == g0.nodes@.len(),
            points_of(graph.nodes@) == c.points,
            forall|i: int|
                #![trigger stops@[i]]
                0 <= i < stops@.len() ==> stops@[i].1 < g0.nodes@.len(),
            c.points == points_of(g0.nodes@),
            c.base == base@,
            base.geometry@.len() == 0,
            !c.restricted,
            !base.restriction,
            w0 == work_of(g0.edges@),
            work_of(graph.edges@) == w0 + segments_upto(c, stops@, k - 1),
            created@ == numbers_from(g0.edges@.len() as int, k - 1),
        decreases stops@.len() - k,
    {
        let a = stops[k - 1];
        let b = stops[k];
        assert(stops@[k - 1].1 < g0.nodes@.len());
        assert(stops@[k as int].1 < g0.nodes@.len());
        let p: Point = graph.nodes[a.1].payload.point;
        let q: Point = graph.nodes[b.1].payload.point;
        let mut payload = base.clone();
        payload.geometry.push(p);
        payload.geometry.push(q);
        let ghost view = payload@;
        let ghost before = *graph;
        proof {
            assert(p == points_of(graph.nodes@)[a.1 as int]);
            assert(q == points_of(graph.nodes@)[b.1 as int]);
            assert(view.geometry =~= seq![c.points[a.1 as int], c.points[b.1 as int]]);
            assert(view == segment(c, stops@[k - 1], stops@[k as int]).payload);
        }
        let e: usize = graph.add_edge(a.1, b.1, payload);
        created.push(e);
        proof {
            assert(work_of(before.edges@).len() == before.edges@.len());
            assert(w0.len() == g0.edges@.len());
            assert(created@ =~= numbers_from(g0.edges@.len() as int, k as int));
            assert(work_of(graph.edges@) =~= work_of(before.edges@).push(
                WorkView { from: a.1, to: b.1, payload: view, active: true },
            ));
            assert(work_of(graph.edges@) =~= w0 + segments_upto(c, stops@, k as int));
            assert(points_of(graph.nodes@) =~= points_of(before.nodes@));
        }
        k = k + 1;
    }
    created
}

fn push_copies(v: &mut Vec<usize>, x: usize, n: usize)
    ensures
        final(v)@ == old(v)@ + Seq::new(n as nat, |k: int| x),
{
    let ghost v0 = v@;
    let mut i: usize = 0;
    assert(v@ =~= v0 + Seq::new(0, |k: int| x));
    while i < n
        invariant
            i <= n,
            v@ == v0 + Seq::new(i as nat, |k: int| x),
        decreases n - i,
    {
        v.push(x);
        assert(v@ =~= v0 + Seq::new((i + 1) as nat, |k: int| x));
        i = i + 1;
    }
}

fn places_of_stops(stops: &Vec<(i64, usize)>) -> (r: Vec<usize>)
    ensures
        r@ == places(stops@),
{
    let mut r: Vec<usize> = Vec::new();
    let mut i: usize = 0;
    while i < stops.len()
        invariant
            i <= stops@.len(),
            r@ == places(stops@).take(i as int),
        decreases stops@.len() - i,
    {
        r.push(stops[i].1);
        assert(r@ =~= places(stops@).take(i + 1));
        i = i + 1;
    }
    assert(r@ =~= places(stops@));
    r
}

/// Looks at a way: joins its nodes by edges, and notes what is needed of it later.
fn add_network_way(
    parts: &mut NetworkParts,
    ways: &Vec<Way>,
    at: usize,
    res: &NetworkResources,
    by_way: &IdLists,
    Ghost(g): Ghost<Ground>,
)
    requires
        at < ways@.len(),
        g.res == *res,
        lists_ways(*by_way, res.pre_relations@, res.pre_relations@.len() as int, g.lines),
        g.lines.len() <= u32::MAX + 1,
        parts_of(*old(parts), g, ways@, at as int),
    ensures
        parts_of(*final(parts), g, ways@, at + 1),
        final(parts).raw.flags == old(parts).raw.flags,
{
    let way = &ways[at];
    let infra = OsmBuilder::is_infrastructure(way) || ids_contains(
        &res.ways_in_ferry_relations,
        way.id,
    );
    let member = ids_contains(&res.ways_in_relations, way.id) && !OsmBuilder::is_platform(way);
    if (!infra && !member) || !OsmBuilder::is_valid_way(way) {
        return ;
    }
    let stops = parts.raw.stops_of(&way.nodes);
    proof {
        lemma_resolved_in_range(way.nodes@, g.index, g.points.len());
        assert(parts.raw.graph.nodes@.len() == g.points.len());
    }
    let modes: u8 = OsmBuilder::way_modes(way, &res.ways_in_ferry_relations);
    mark_nodes(&mut parts.node_modes, &stops, modes);
    if member && stops.len() > 0 {
        id_slots_insert(&mut parts.way_nodes, way.id, places_of_stops(&stops));
    }
    if infra && stops.len() > 1 {
        let mut base = EdgePL::new();
        base.lines = numbers_for_way(by_way, way.id, Ghost(res.pre_relations@), Ghost(g.lines));
        base.level = OsmBuilder::parse_level(&way.tags);
        base.oneway = OsmBuilder::parse_oneway(&way.tags);
        base.preferred_direction = OsmBuilder::parse_preferred_direction(&way.tags);
        base.allowed_modes = modes;
        base.osmid = way.id;
        let ghost c = course_on(g, *way);
        assert(base@ == c.base);
        let ghost before = parts.raw.graph;
        let created = join_stops(&mut parts.raw.graph, &stops, &base, Ghost(c));
        proof {
            assert(points_of(before.nodes@).len() == points_of(parts.raw.graph.nodes@).len());
            assert(work_of(before.edges@).len() == before.edges@.len());
        }
        push_copies(&mut parts.edge_ways, at, created.len());
        assert(parts.edge_ways@ =~= edge_sources(g, ways@, at + 1));
        id_slots_insert(&mut parts.way_edges, way.id, created);
    }
}

/// The nodes and edges of an extract, with what the routes need of its ways.
pub(crate) fn build_parts(
    raw: RawGraph,
    ways: &Vec<Way>,
    res: &NetworkResources,
    by_way: &IdLists,
    Ghost(g): Ghost<Ground>,
) -> (parts: NetworkParts)
    requires
        raw.wf(),
        raw.graph.edges@ == Seq::<Edge<EdgePL>>::empty(),
        g.res == *res,
        g.index == index_of(raw.index),
        g.points == points_of(raw.graph.nodes@),
        lists_ways(*by_way, res.pre_relations@, res.pre_relations@.len() as int, g.lines),
        g.lines.len() <= u32::MAX + 1,
    ensures
        parts_of(parts, g, ways@, ways@.len() as int),
        parts.raw.flags == raw.flags,
{
    let mut node_modes: Vec<u8> = Vec::new();
    let mut i: usize = 0;
    while i < raw.graph.nodes.len()
        invariant
            i <= raw.graph.nodes@.len(),
            node_modes@.len() == i,
            forall|v: int| #![trigger node_modes@[v]] 0 <= v < i ==> node_modes@[v] == 0,
        decreases raw.graph.nodes@.len() - i,
    {
        node_modes.push(0);
        i = i + 1;
    }
    let ghost flags = raw.flags;
    let mut parts = NetworkParts {
        raw,
        edge_ways: Vec::new(),
        way_nodes: id_slots_new(),
        way_edges: id_slots_new(),
        node_modes,
    };
    assert(work_of(parts.raw.graph.edges@) =~= network_edges(g, ways@, 0));
    let mut k: usize = 0;
    while k < ways.len()
        invariant
            k <= ways@.len(),
            g.res == *res,
            lists_ways(*by_way, res.pre_relations@, res.pre_relations@.len() as int, g.lines),
            g.lines.len() <= u32::MAX + 1,
            parts_of(parts, g, ways@, k as int),
            parts.raw.flags == flags,
        decreases ways@.len() - k,
    {
        add_network_way(&mut parts, ways, k, res, by_way, Ghost(g));
        k = k + 1;
    }
    parts
}

// What the ways of a network become.

/// Whether an edge comes from a way: it is built from it, and joins two nodes that follow one another on it.
pub open spec fn is_built_from(g: Ground, w: Way, e: WorkView) -> bool {
    &&& builds(g, w)
    &&& e.payload.osmid == w.id
    &&& exists|j: int| #[trigger] joins_next(stops_on(g, w), g.points, e, j)
}

/// Whether two nodes that follow one another on a way that is built are joined by an edge that comes from it.
pub open spec fn joins_hop(
    g: Ground,
    ways: Seq<Way>,
    k: int,
    j: int,
    edges: Work,
    sources: Seq<usize>,
) -> bool {
    builds(g, ways[k]) && 0 < j < stops_on(g, ways[k]).len() ==> exists|i: int|
        0 <= i < edges.len() && sources[i] == k && joins_next(
            stops_on(g, ways[k]),
            g.points,
            #[trigger] edges[i],
            j,
        )
}

/// Each edge comes from the way that is noted for it. Each two nodes that follow one another on a way that is
/// built are joined by an edge that comes from it.
pub proof fn lemma_network_edges(g: Ground, ways: Seq<Way>, n: int)
    requires
        0 <= n <= ways.len() <= usize::MAX,
    ensures
        ({
            let edges = network_edges(g, ways, n);
            let sources = edge_sources(g, ways, n);
            &&& sources.len() == edges.len()
            &&& forall|i: int|
                #![trigger edges[i]]
                #![trigger sources[i]]
                0 <= i < edges.len() ==> sources[i] < n && is_built_from(
                    g,
                    ways[sources[i] as int],
                    edges[i],
                )
            &&& forall|k: int, j: int|
                0 <= k < n ==> #[trigger] joins_hop(g, ways, k, j, edges, sources)
        }),
    decreases n,
{
    if n > 0 {
        lemma_network_edges(g, ways, n - 1);
        let e0 = network_edges(g, ways, n - 1);
        let s0 = edge_sources(g, ways, n - 1);
        let edges = network_edges(g, ways, n);
        let sources = edge_sources(g, ways, n);
        let w = ways[n - 1];
        let stops = stops_on(g, w);
        assert forall|i: int|
            #![trigger edges[i]]
            #![trigger sources[i]]
            0 <= i < edges.len() implies sources[i] < n && is_built_from(
            g,
            ways[sources[i] as int],
            edges[i],
        ) by {
            if i < e0.len() {
                assert(edges[i] == e0[i]);
                assert(sources[i] == s0[i]);
            } else {
                let k = i - e0.len();
                assert(edges[i] == segment(course_on(g, w), stops[k], stops[k + 1]));
                assert(sources[i] == n - 1);
                assert(joins_next(stops, g.points, edges[i], k + 1));
            }
        }
        assert forall|k: int, j: int| 0 <= k < n implies #[trigger] joins_hop(
            g,
            ways,
            k,
            j,
            edges,
            sources,
        ) by {
            if builds(g, ways[k]) && 0 < j < stops_on(g, ways[k]).len() {
                if k < n - 1 {
                    assert(joins_hop(g, ways, k, j, e0, s0));
                    let i = choose|i: int|
                        0 <= i < e0.len() && s0[i] == k && joins_next(
                            stops_on(g, ways[k]),
                            g.points,
                            #[trigger] e0[i],
                            j,
                        );
                    assert(edges[i] == e0[i]);
                    assert(sources[i] == s0[i]);
                } else {
                    let i = e0.len() + j - 1;
                    assert(edges[i] == segment(course_on(g, w), stops[j - 1], stops[j]));
                    assert(sources[i] == n - 1);
                    assert(joins_next(stops, g.points, edges[i], j));
                }
            }
        }
    }
}

/// The numbers noted for a way are those of all edges that come from it, or from the last way with its
/// identifier that is built, in their order; for other ways none are noted.
pub proof fn lemma_way_edge_numbers(g: Ground, ways: Seq<Way>, n: int, id: i64)
    requires
        0 <= n <= ways.len() <= usize::MAX,
        network_edges(g, ways, n).len() <= usize::MAX,
    ensures
        ({
            let m = way_edge_numbers(g, ways, n);
            let sources = edge_sources(g, ways, n);
            &&& m.contains_key(id) <==> exists|k: int|
                0 <= k < n && builds(g, #[trigger] ways[k]) && ways[k].id == id
            &&& m.contains_key(id) ==> exists|k: int|
                0 <= k < n && builds(g, #[trigger] ways[k]) && ways[k].id == id && (forall|l: int|
                    k < l < n && #[trigger] builds(g, ways[l]) ==> ways[l].id != id) && lists_source(
                    m[id],
                    sources,
                    k,
                )
        }),
    decreases n,
{
    if n > 0 {
        let e0 = network_edges(g, ways, n - 1);
        let s0 = edge_sources(g, ways, n - 1);
        let sources = edge_sources(g, ways, n);
        let m0 = way_edge_numbers(g, ways, n - 1);
        let m = way_edge_numbers(g, ways, n);
        let w = ways[n - 1];
        assert(e0.len() <= network_edges(g, ways, n).len());
        lemma_way_edge_numbers(g, ways, n - 1, id);
        lemma_network_edges(g, ways, n - 1);
        lemma_network_edges(g, ways, n);
        if builds(g, w) && w.id == id {
            let first = e0.len() as int;
            let count = stops_on(g, w).len() - 1;
            let list = numbers_from(first, count);
            assert(m[id] == list);
            assert(sources.len() == first + count);
            assert forall|i: usize| #[trigger] list.contains(i) <==> i < sources.len()
                && sources[i as int] == n - 1 by {
                if list.contains(i) {
                    let x = choose|x: int| 0 <= x < list.len() && list[x] == i;
                    assert(i == first + x);
                    assert(sources[i as int] == n - 1);
                }
                if i < sources.len() && sources[i as int] == n - 1 {
                    if i < s0.len() {
                        assert(sources[i as int] == s0[i as int]);
                        assert(s0[i as int] < n - 1);
                    }
                    assert(list[i - first] == i);
                }
            }
            assert(lists_source(list, sources, n - 1));
            assert(builds(g, ways[n - 1]));
        } else {
            if m0.contains_key(id) {
                let k = choose|k: int|
                    0 <= k < n - 1 && builds(g, #[trigger] ways[k]) && ways[k].id == id && (forall|
                        l: int,
                    |
                        k < l < n - 1 && #[trigger] builds(g, ways[l]) ==> ways[l].id != id)
                        && lists_source(m0[id], s0, k);
                assert forall|i: usize| #[trigger] m0[id].contains(i) <==> i < sources.len()
                    && sources[i as int] == k by {
                    if i < s0.len() {
                        assert(sources[i as int] == s0[i as int]);
                    } else if i < sources.len() {
                        assert(sources[i as int] == n - 1);
                    }
                }
                assert(lists_source(m[id], sources, k));
                assert(builds(g, ways[k]));
            }
        }
    }
}

/// Whether a list holds, ascending, the positions at which a way is noted.
pub open spec fn lists_source(list: Seq<usize>, sources: Seq<usize>, k: int) -> bool {
    &&& forall|i: usize| #[trigger] list.contains(i) <==> i < sources.len() && sources[i as int] == k
    &&& forall|a: int, b: int|
        #![trigger list[a], list[b]]
        0 <= a < b < list.len() ==> list[a] < list[b]
}

/// A mode may use a node if and only if it may use one of the ways that are used and stop at the node.
pub proof fn lemma_modes_at(g: Ground, ways: Seq<Way>, n: int, v: int, mode: u8)
    requires
        0 <= n <= ways.len(),
    ensures
        modes_at(g, ways, n, v) & mode != 0 <==> exists|k: int|
            0 <= k < n && lets_mode_stop(g, #[trigger] ways[k], v, mode),
    decreases n,
{
    if n <= 0 {
        assert(0u8 & mode == 0) by (bit_vector);
    } else {
        lemma_modes_at(g, ways, n - 1, v, mode);
        let x = modes_at(g, ways, n - 1, v);
        let y = modes_on(ways[n - 1], ids_of(g.res.ways_in_ferry_relations));
        assert((x | y) & mode != 0 <==> x & mode != 0 || y & mode != 0) by (bit_vector);
        assert(lets_mode_stop(g, ways[n - 1], v, mode) || !lets_mode_stop(g, ways[n - 1], v, mode));
    }
}

/// Whether a mode may use a way that is used and stops at a node.
pub open spec fn lets_mode_stop(g: Ground, w: Way, v: int, mode: u8) -> bool {
    &&& is_used(w, g.res)
    &&& stops_at(stops_on(g, w), v)
    &&& modes_on(w, ids_of(g.res.ways_in_ferry_relations)) & mode != 0
}

/// The nodes noted for a way that belongs to a relation are those of it that are in the graph, in its order; the
/// last way with an identifier counts.
pub proof fn lemma_member_paths(g: Ground, ways: Seq<Way>, n: int, id: i64)
    requires
        0 <= n <= ways.len(),
    ensures
        ({
            let m = member_paths(g, ways, n);
            &&& m.contains_key(id) <==> exists|k: int|
                0 <= k < n && is_path_of(g, #[trigger] ways[k], id)
            &&& forall|k: int|
                0 <= k < n && is_path_of(g, #[trigger] ways[k], id) && (forall|l: int|
                    k < l < n ==> !is_path_of(g, #[trigger] ways[l], id)) ==> m[id]
                    == ways[k].nodes@.filter(|x: i64| g.index.contains_key(x)).map_values(
                    |x: i64| g.index[x],
                )
        }),
    decreases n,
{
    if n > 0 {
        lemma_member_paths(g, ways, n - 1, id);
        let w = ways[n - 1];
        let last = is_path_of(g, w, id);
        if last {
            assert(is_path_of(g, ways[n - 1], id));
            lemma_resolved(w.nodes@, g.index);
            assert(places(stops_on(g, w)) =~= w.nodes@.filter(
                |x: i64| g.index.contains_key(x),
            ).map_values(|x: i64| g.index[x]));
        } else {
            assert forall|k: int|
                0 <= k < n && is_path_of(g, #[trigger] ways[k], id) && (forall|l: int|
                    k < l < n ==> !is_path_of(g, #[trigger] ways[l], id)) implies member_paths(
                g,
                ways,
                n,
            )[id] == ways[k].nodes@.filter(|x: i64| g.index.contains_key(x)).map_values(
                |x: i64| g.index[x],
            ) by {
                assert(k < n - 1);
            }
        }
    }
}

/// Whether a way has this identifier, belongs to a relation, is used, and has a node in the graph.
pub open spec fn is_path_of(g: Ground, w: Way, id: i64) -> bool {
    &&& w.id == id
    &&& is_used(w, g.res)
    &&& is_member(w, g.res)
    &&& stops_on(g, w).len() > 0
}

} // verus!
