//! The routes on a network for all modes, and the nodes that are near a stop.

use crate::collapse::work_of;
use crate::components::is_number;
use crate::edge_attrs::NamedLine;
use crate::finish::{costed, set_costs};
use crate::geometry::{BBox, Point};
use crate::graph::{MODE_BUS, MODE_FERRY, MODE_GONDOLA, MODE_RAIL, MODE_SUBWAY, MODE_TRAM};
use crate::hashed::{
    id_slots_get, ids_insert, ids_new, ids_of, index_get, index_insert, index_new, index_of,
    indices_insert, indices_new, indices_of, slots_at, IdIndex, IdSet, IndexSet,
};
use crate::mots::RouteType;
use crate::network::{
    collect_lines, list_ways, lists_lines, network_identified, public_relations, NetworkResources,
};
use crate::network_build::{
    build_parts, edge_sources, network_edges, nodes_placed, parts_of, place_nodes, Ground,
    NetworkParts,
};
use crate::osm::{Member, OsmId, OsmNode, Relation, Way};
use crate::osm_builder::points_of;
use crate::osm_load::{cost_on, post_processed, OsmBuilder};
use crate::resources::PreRelation;
use crate::segment_matcher::{
    are_nearest_places, load_nodes, nearest_places, nodes_in, NodeTree,
};
use crate::tags::Tags;
use vstd::prelude::*;
use vstd::slice::slice_to_vec;

verus! {

/// What a route passes, as far as it has been followed.
#[verifier::ext_equal]
pub struct Course {
    /// The relations that have been looked at.
    pub visited: Set<i64>,
    pub nodes: Seq<usize>,
    pub edges: Set<usize>,
    /// The nodes of the ways with at least two, way by way.
    pub ways: Seq<Seq<usize>>,
}

/// What routes are followed on.
pub struct Tables {
    pub rels: Seq<PreRelation>,
    /// Where relations are found by their identifiers.
    pub rel_at: Map<i64, usize>,
    /// Where nodes are found by their identifiers.
    pub node_at: Map<i64, usize>,
    /// For each node whether it is a stop.
    pub stop: Seq<u8>,
    /// The nodes of ways.
    pub paths: Map<i64, Seq<usize>>,
    /// The edges of ways.
    pub edges: Map<i64, Seq<usize>>,
}

/// A route that passes a node, unless the node is a stop.
pub open spec fn with_node(t: Tables, id: i64, c: Course) -> Course {
    if t.node_at.contains_key(id) && t.stop[t.node_at[id] as int] == 0 {
        Course { nodes: c.nodes.push(t.node_at[id]), ..c }
    } else {
        c
    }
}

/// A route that runs along a way.
pub open spec fn with_way(t: Tables, id: i64, c: Course) -> Course {
    Course {
        ways: if t.paths.contains_key(id) && t.paths[id].len() >= 2 {
            c.ways.push(t.paths[id])
        } else {
            c.ways
        },
        nodes: if t.paths.contains_key(id) {
            c.nodes + t.paths[id]
        } else {
            c.nodes
        },
        edges: if t.edges.contains_key(id) {
            c.edges.union(t.edges[id].to_set())
        } else {
            c.edges
        },
        ..c
    }
}

/// A route that contains a relation: what its members pass, one after the other. A relation that has been
/// looked at is passed over. Relations are nested at most `depth` deep.
pub open spec fn flattened(t: Tables, depth: nat, id: i64, c: Course) -> Course
    decreases depth, 0nat,
{
    if depth == 0 || c.visited.contains(id) {
        c
    } else {
        let d = Course { visited: c.visited.insert(id), ..c };
        if t.rel_at.contains_key(id) {
            let members = t.rels[t.rel_at[id] as int].members@;
            members_followed(t, (depth - 1) as nat, members, members.len(), d)
        } else {
            d
        }
    }
}

/// A route once the first `n` members of a relation have been followed.
pub open spec fn members_followed(
    t: Tables,
    depth: nat,
    members: Seq<Member>,
    n: nat,
    c: Course,
) -> Course
    decreases depth, n + 1,
{
    if n == 0 {
        c
    } else {
        let d = members_followed(t, depth, members, (n - 1) as nat, c);
        match members[n - 1].member {
            OsmId::Node(id) => with_node(t, id, d),
            OsmId::Way(id) => with_way(t, id, d),
            OsmId::Relation(id) => flattened(t, depth, id, d),
        }
    }
}

/// Nothing yet.
pub open spec fn no_course() -> Course {
    Course { visited: Set::empty(), nodes: Seq::empty(), edges: Set::empty(), ways: Seq::empty() }
}

/// The positions of relations by their identifiers. If one occurs twice, its last position counts.
pub open spec fn relation_positions(rels: Seq<PreRelation>) -> Map<i64, usize>
    decreases rels.len(),
{
    if rels.len() == 0 {
        Map::empty()
    } else {
        relation_positions(rels.drop_last()).insert(rels.last().id, (rels.len() - 1) as usize)
    }
}

/// What a route passes: everything that its relation contains, however deep.
pub open spec fn course_of_route(t: Tables, id: i64) -> Course {
    flattened(t, t.rels.len() + 1, id, no_course())
}

/// What a route passes, in the making.
struct Trace {
    visited: IdSet,
    nodes: Vec<usize>,
    edges: IndexSet,
    ways: Vec<Vec<usize>>,
}

impl Trace {
    spec fn course(&self) -> Course {
        Course {
            visited: ids_of(self.visited),
            nodes: self.nodes@,
            edges: indices_of(self.edges),
            ways: self.ways@.map_values(|w: Vec<usize>| w@),
        }
    }
}

/// The tables for following routes on a network under construction.
pub open spec fn tables_of(parts: NetworkParts, rels: Seq<PreRelation>) -> Tables {
    Tables {
        rels,
        rel_at: relation_positions(rels),
        node_at: index_of(parts.raw.index),
        stop: parts.raw.flags@,
        paths: slots_at(parts.way_nodes),
        edges: slots_at(parts.way_edges),
    }
}

proof fn lemma_relation_positions(rels: Seq<PreRelation>)
    requires
        rels.len() <= usize::MAX,
    ensures
        forall|id: i64| #[trigger]
            relation_positions(rels).contains_key(id) ==> relation_positions(rels)[id] < rels.len(),
    decreases rels.len(),
{
    if rels.len() > 0 {
        let rest = relation_positions(rels.drop_last());
        lemma_relation_positions(rels.drop_last());
        assert forall|id: i64| #[trigger] relation_positions(rels).contains_key(id) implies relation_positions(
            rels,
        )[id] < rels.len() by {
            if id != rels.last().id {
                assert(rest.contains_key(id));
            }
        }
    }
}

fn index_relations(rels: &Vec<PreRelation>) -> (m: IdIndex)
    ensures
        index_of(m) == relation_positions(rels@),
{
    let mut m = index_new();
    let mut i: usize = 0;
    assert(rels@.take(0) =~= Seq::<PreRelation>::empty());
    while i < rels.len()
        invariant
            i <= rels@.len(),
            index_of(m) == relation_positions(rels@.take(i as int)),
        decreases rels@.len() - i,
    {
        assert(rels@.take(i + 1).drop_last() =~= rels@.take(i as int));
        index_insert(&mut m, rels[i].id, i);
        i = i + 1;
    }
    assert(rels@.take(i as int) =~= rels@);
    m
}

fn insert_all(set: &mut IndexSet, list: &Vec<usize>)
    ensures
        indices_of(*final(set)) == indices_of(*old(set)).union(list@.to_set()),
{
    let ghost s0 = indices_of(*set);
    let mut i: usize = 0;
    assert(s0 =~= s0.union(list@.take(0).to_set()));
    while i < list.len()
        invariant
            i <= list@.len(),
            indices_of(*set) == s0.union(list@.take(i as int).to_set()),
        decreases list@.len() - i,
    {
        indices_insert(set, list[i]);
        proof {
            let a = list@.take(i as int);
            let b = list@.take(i + 1);
            assert(b =~= a.push(list@[i as int]));
            assert forall|x: usize| #[trigger] b.to_set().contains(x) <==> a.to_set().contains(x) || x
                == list@[i as int] by {
                if a.contains(x) {
                    let k = choose|k: int| 0 <= k < a.len() && a[k] == x;
                    assert(b[k] == x);
                }
                if x == list@[i as int] {
                    assert(b[i as int] == x);
                }
                if b.contains(x) && x != list@[i as int] {
                    let k = choose|k: int| 0 <= k < b.len() && b[k] == x;
                    assert(a[k] == x);
                }
            }
            assert(indices_of(*set) =~= s0.union(b.to_set()));
        }
        i = i + 1;
    }
    assert(list@.take(i as int) =~= list@);
}

fn follow_way(parts: &NetworkParts, id: i64, trace: &mut Trace, Ghost(t): Ghost<Tables>)
    requires
        t.paths == slots_at(parts.way_nodes),
        t.edges == slots_at(parts.way_edges),
    ensures
        final(trace).course() == with_way(t, id, old(trace).course()),
{
    let ghost c0 = trace.course();
    if let Some(nodes) = id_slots_get(&parts.way_nodes, id) {
        if nodes.len() >= 2 {
            let copy = slice_to_vec(nodes.as_slice());
            let ghost before = trace.ways@;
            trace.ways.push(copy);
            assert(trace.ways@.map_values(|w: Vec<usize>| w@) =~= before.map_values(
                |w: Vec<usize>| w@,
            ).push(nodes@));
        }
        let ghost before = trace.nodes@;
        trace.nodes.extend_from_slice(nodes.as_slice());
        assert(trace.nodes@ =~= before + nodes@);
    }
    if let Some(edges) = id_slots_get(&parts.way_edges, id) {
        insert_all(&mut trace.edges, edges);
    }
    assert(trace.course() =~= with_way(t, id, c0));
}

/// Follows a relation, and what it contains, on a network.
fn flatten_relation(
    parts: &NetworkParts,
    rels: &Vec<PreRelation>,
    rel_at: &IdIndex,
    depth: usize,
    id: i64,
    trace: &mut Trace,
    Ghost(t): Ghost<Tables>,
)
    requires
        t == tables_of(*parts, rels@),
        t.rel_at == index_of(*rel_at),
        parts.raw.wf(),
    ensures
        final(trace).course() == flattened(t, depth as nat, id, old(trace).course()),
    decreases depth,
{
    let ghost c0 = trace.course();
    if depth == 0 {
        return ;
    }
    let new = ids_insert(&mut trace.visited, id);
    if !new {
        assert(ids_of(trace.visited) =~= c0.visited);
        return ;
    }
    let ghost d = trace.course();
    assert(d == (Course { visited: c0.visited.insert(id), ..c0 }));
    assert(rels.len() == rels@.len());
    proof {
        lemma_relation_positions(rels@);
    }
    if let Some(at) = index_get(rel_at, id) {
        let members = &rels[at].members;
        let mut k: usize = 0;
        while k < members.len()
            invariant
                k <= members@.len(),
                0 < depth,
                t == tables_of(*parts, rels@),
                t.rel_at == index_of(*rel_at),
                parts.raw.wf(),
                trace.course() == members_followed(t, (depth - 1) as nat, members@, k as nat, d),
            decreases members@.len() - k,
        {
            let ghost before = trace.course();
            match members[k].member {
                OsmId::Node(node) => {
                    if let Some(v) = index_get(&parts.raw.index, node) {
                        if parts.raw.flags[v] == 0 {
                            trace.nodes.push(v);
                        }
                    }
                    assert(trace.course() =~= with_node(t, node, before));
                },
                OsmId::Way(way) => {
                    follow_way(parts, way, trace, Ghost(t));
                },
                OsmId::Relation(sub) => {
                    flatten_relation(parts, rels, rel_at, depth - 1, sub, trace, Ghost(t));
                },
            }
            k = k + 1;
        }
    }
}

/// A route on a network.
pub struct OsmRelation {
    pub id: i64,
    pub tags: Tags,
    /// The nodes that the route passes.
    pub nodes: Vec<usize>,
    /// The edges that it uses.
    pub edges: IndexSet,
    /// The nodes of its ways, way by way.
    pub member_ways: Vec<Vec<usize>>,
}

/// Whether a route is that of a relation.
pub open spec fn is_route_of(r: OsmRelation, p: PreRelation, t: Tables) -> bool {
    let c = course_of_route(t, p.id);
    &&& r.id == p.id
    &&& forall|k: Seq<char>| #[trigger] r.tags.val(k) == p.tags.val(k)
    &&& r.nodes@ == c.nodes
    &&& indices_of(r.edges) == c.edges
    &&& r.member_ways@.map_values(|w: Vec<usize>| w@) == c.ways
}

/// The positions of the relations among the first `n` that are routes.
pub open spec fn route_positions(rels: Seq<PreRelation>, n: int) -> Seq<usize>
    decreases n,
{
    if n <= 0 {
        Seq::empty()
    } else if rels[n - 1].tags.has("type"@, "route"@) {
        route_positions(rels, n - 1).push((n - 1) as usize)
    } else {
        route_positions(rels, n - 1)
    }
}

/// Whether routes are those of the first `n` relations.
pub open spec fn are_routes(
    routes: Seq<OsmRelation>,
    rels: Seq<PreRelation>,
    n: int,
    t: Tables,
) -> bool {
    let at = route_positions(rels, n);
    &&& routes.len() == at.len()
    &&& forall|i: int|
        #![trigger routes[i]]
        0 <= i < routes.len() ==> is_route_of(routes[i], rels[at[i] as int], t)
}

fn follow_routes(parts: &NetworkParts, rels: &Vec<PreRelation>, Ghost(t): Ghost<Tables>) -> (routes:
    Vec<OsmRelation>)
    requires
        t == tables_of(*parts, rels@),
        parts.raw.wf(),
        rels@.len() < usize::MAX,
    ensures
        are_routes(routes@, rels@, rels@.len() as int, t),
{
    let rel_at = index_relations(rels);
    let depth: usize = rels.len() + 1;
    let mut routes: Vec<OsmRelation> = Vec::new();
    let mut i: usize = 0;
    while i < rels.len()
        invariant
            i <= rels@.len(),
            t == tables_of(*parts, rels@),
            t.rel_at == index_of(rel_at),
            parts.raw.wf(),
            depth == rels@.len() + 1,
            are_routes(routes@, rels@, i as int, t),
        decreases rels@.len() - i,
    {
        let ghost before = routes@;
        if rels[i].tags.is("type", "route") {
            let mut trace = Trace {
                visited: ids_new(),
                nodes: Vec::new(),
                edges: indices_new(),
                ways: Vec::new(),
            };
            assert(trace.course() =~= no_course());
            flatten_relation(parts, rels, &rel_at, depth, rels[i].id, &mut trace, Ghost(t));
            routes.push(
                OsmRelation {
                    id: rels[i].id,
                    tags: rels[i].tags.copy(),
                    nodes: trace.nodes,
                    edges: trace.edges,
                    member_ways: trace.ways,
                },
            );
            proof {
                let at0 = route_positions(rels@, i as int);
                assert forall|k: int| #![trigger routes@[k]] 0 <= k < routes@.len() implies is_route_of(
                    routes@[k],
                    rels@[route_positions(rels@, i + 1)[k] as int],
                    t,
                ) by {
                    if k < before.len() {
                        assert(routes@[k] == before[k]);
                        assert(route_positions(rels@, i + 1)[k] == at0[k]);
                    }
                }
            }
        }
        i = i + 1;
    }
    routes
}

/// The routes, among the first `n`, that pass a node, as often as they do.
pub open spec fn routes_at(routes: Seq<OsmRelation>, n: int, v: int) -> Seq<usize>
    decreases n,
{
    if n <= 0 {
        Seq::empty()
    } else {
        passes(routes_at(routes, n - 1, v), routes[n - 1].nodes@, routes[n - 1].nodes@.len() as int, (
        n - 1) as usize, v)
    }
}

/// A list with a route behind it for each time that the first `k` nodes of it are this one.
pub open spec fn passes(list: Seq<usize>, nodes: Seq<usize>, k: int, route: usize, v: int) -> Seq<
    usize,
>
    decreases k,
{
    if k <= 0 {
        list
    } else if nodes[k - 1] == v {
        passes(list, nodes, k - 1, route, v).push(route)
    } else {
        passes(list, nodes, k - 1, route, v)
    }
}

/// Whether lists hold for each node the routes that pass it.
pub open spec fn are_routes_at(lists: Seq<Vec<usize>>, routes: Seq<OsmRelation>, n: int) -> bool {
    forall|v: int|
        #![trigger lists[v]]
        0 <= v < lists.len() ==> lists[v]@ == routes_at(routes, n, v)
}

fn note_passes(lists: &mut Vec<Vec<usize>>, nodes: &Vec<usize>, route: usize)
    ensures
        final(lists)@.len() == old(lists)@.len(),
        forall|v: int|
            #![trigger final(lists)@[v]]
            0 <= v < old(lists)@.len() ==> final(lists)@[v]@ == passes(
                old(lists)@[v]@,
                nodes@,
                nodes@.len() as int,
                route,
                v,
            ),
{
    let ghost l0 = lists@;
    let mut k: usize = 0;
    while k < nodes.len()
        invariant
            k <= nodes@.len(),
            lists@.len() == l0.len(),
            forall|v: int|
                #![trigger lists@[v]]
                0 <= v < l0.len() ==> lists@[v]@ == passes(l0[v]@, nodes@, k as int, route, v),
        decreases nodes@.len() - k,
    {
        let v: usize = nodes[k];
        let ghost before = lists@;
        if v < lists.len() {
            lists[v].push(route);
        }
        proof {
            assert forall|w: int| #![trigger lists@[w]] 0 <= w < l0.len() implies lists@[w]@ == passes(
                l0[w]@,
                nodes@,
                k + 1,
                route,
                w,
            ) by {
                assert(before[w]@ == passes(l0[w]@, nodes@, k as int, route, w));
            }
        }
        k = k + 1;
    }
}

fn list_routes(routes: &Vec<OsmRelation>, n: usize) -> (lists: Vec<Vec<usize>>)
    ensures
        lists@.len() == n,
        are_routes_at(lists@, routes@, routes@.len() as int),
{
    let mut lists: Vec<Vec<usize>> = Vec::new();
    let mut i: usize = 0;
    while i < n
        invariant
            i <= n,
            lists@.len() == i,
            forall|v: int| #![trigger lists@[v]] 0 <= v < i ==> lists@[v]@ == Seq::<usize>::empty(),
        decreases n - i,
    {
        lists.push(Vec::new());
        i = i + 1;
    }
    let mut r: usize = 0;
    while r < routes.len()
        invariant
            r <= routes@.len(),
            lists@.len() == n,
            are_routes_at(lists@, routes@, r as int),
        decreases routes@.len() - r,
    {
        note_passes(&mut lists, &routes[r].nodes, r);
        r = r + 1;
    }
    lists
}

/// The mode that a route type needs: all that is neither rail, tram, subway, ferry nor gondola goes by
/// road.
pub open spec fn mode_needed(t: RouteType) -> u8 {
    match t {
        RouteType::Rail => MODE_RAIL,
        RouteType::Tramway => MODE_TRAM,
        RouteType::Subway => MODE_SUBWAY,
        RouteType::Ferry => MODE_FERRY,
        RouteType::Gondola => MODE_GONDOLA,
        _ => MODE_BUS,
    }
}

/// The modes that the first `n` route types need.
pub open spec fn modes_needed(types: Seq<RouteType>, n: int) -> u8
    decreases n,
{
    if n <= 0 {
        0
    } else {
        modes_needed(types, n - 1) | mode_needed(types[n - 1])
    }
}

fn needed_modes(types: &Vec<RouteType>) -> (r: u8)
    ensures
        r == modes_needed(types@, types@.len() as int),
{
    let mut r: u8 = 0;
    let mut i: usize = 0;
    while i < types.len()
        invariant
            i <= types@.len(),
            r == modes_needed(types@, i as int),
        decreases types@.len() - i,
    {
        let m: u8 = match types[i] {
            RouteType::Rail => MODE_RAIL,
            RouteType::Tramway => MODE_TRAM,
            RouteType::Subway => MODE_SUBWAY,
            RouteType::Ferry => MODE_FERRY,
            RouteType::Gondola => MODE_GONDOLA,
            _ => MODE_BUS,
        };
        r = r | m;
        i = i + 1;
    }
    r
}

/// A network for all modes, with the routes that run on it. Its edges have no costs yet.
pub struct Network {
    pub res: NetworkResources,
    pub parts: NetworkParts,
    /// The lines that use the edges.
    pub lines: Vec<NamedLine>,
    /// The routes.
    pub relations: Vec<OsmRelation>,
    /// For each node the routes that pass it.
    pub node_to_relations: Vec<Vec<usize>>,
    /// For each node the modes for which it may be found near a stop.
    pub found_for: Vec<u8>,
}

/// The ground of a network.
pub open spec fn ground_of(net: Network) -> Ground {
    Ground {
        index: index_of(net.parts.raw.index),
        points: points_of(net.parts.raw.graph.nodes@),
        res: net.res,
        lines: net.lines@,
    }
}

/// Whether a network is what an extract becomes: the wanted nodes, the edges of its ways, the lines and
/// routes of its relations, and for each node that is no stop the needed modes of its ways.
pub open spec fn is_network(
    net: Network,
    relations: Seq<Relation>,
    nodes: Seq<OsmNode>,
    ways: Seq<Way>,
    types: Seq<RouteType>,
    bbox: Option<BBox>,
    skip_small_roads: bool,
) -> bool {
    let rels = net.res.pre_relations@;
    &&& network_identified(net.res, relations, ways, skip_small_roads)
    &&& nodes_placed(net.parts.raw, net.res.needed_nodes@, nodes, bbox)
    &&& lists_lines(net.lines@, rels, rels.len() as int)
    &&& parts_of(net.parts, ground_of(net), ways, ways.len() as int)
    &&& are_routes(net.relations@, rels, rels.len() as int, tables_of(net.parts, rels))
    &&& net.node_to_relations@.len() == net.parts.node_modes@.len()
    &&& are_routes_at(
        net.node_to_relations@,
        net.relations@,
        net.relations@.len() as int,
    )
    &&& net.found_for@.len() == net.parts.node_modes@.len()
    &&& forall|v: int|
        #![trigger net.found_for@[v]]
        0 <= v < net.found_for@.len() ==> net.found_for@[v] == (if net.parts.raw.flags@[v] == 0 {
            net.parts.node_modes@[v] & modes_needed(types, types.len() as int)
        } else {
            0
        })
}

impl OsmBuilder {
    /// Reads a network for all modes from an extract.
    pub fn read(
        relations: Vec<Relation>,
        nodes: &Vec<OsmNode>,
        ways: &Vec<Way>,
        types: &Vec<RouteType>,
        bbox: Option<BBox>,
        skip_small_roads: bool,
    ) -> (net: Network)
        requires
            relations@.len() < u32::MAX,
        ensures
            is_network(net, relations@, nodes@, ways@, types@, bbox, skip_small_roads),
            net.fits(ways@.len()),
            net.has_lists(),
            net.lists_routes(),
    {
        let ghost all = relations@;
        let res = OsmBuilder::identify_resources(relations, ways, skip_small_roads);
        proof {
            lemma_fewer_public(all);
        }
        let raw = place_nodes(nodes, &res.needed_nodes, bbox);
        let lines = collect_lines(&res.pre_relations);
        let by_way = list_ways(&res.pre_relations, &lines);
        let ghost g = Ground {
            index: index_of(raw.index),
            points: points_of(raw.graph.nodes@),
            res,
            lines: lines@,
        };
        let ghost raw0 = raw;
        let parts = build_parts(raw, ways, &res, &by_way, Ghost(g));
        proof {
            assert(parts.raw.graph.nodes@.len() == points_of(raw0.graph.nodes@).len());
            assert forall|i: int|
                #![trigger parts.raw.graph.nodes@[i]]
                0 <= i < raw0.graph.nodes@.len() implies parts.raw.graph.nodes@[i].payload.point
                == raw0.graph.nodes@[i].payload.point by {
                assert(points_of(parts.raw.graph.nodes@)[i] == points_of(raw0.graph.nodes@)[i]);
            }
            assert(nodes_placed(parts.raw, res.needed_nodes@, nodes@, bbox));
        }
        let relations = follow_routes(
            &parts,
            &res.pre_relations,
            Ghost(tables_of(parts, res.pre_relations@)),
        );
        let node_to_relations = list_routes(&relations, parts.node_modes.len());
        let needed: u8 = needed_modes(types);
        let mut found_for: Vec<u8> = Vec::new();
        let mut v: usize = 0;
        while v < parts.node_modes.len()
            invariant
                v <= parts.node_modes@.len(),
                parts.raw.flags@.len() == parts.node_modes@.len(),
                needed == modes_needed(types@, types@.len() as int),
                found_for@.len() == v,
                forall|w: int|
                    #![trigger found_for@[w]]
                    0 <= w < v ==> found_for@[w] == (if parts.raw.flags@[w] == 0 {
                        parts.node_modes@[w] & modes_needed(types@, types@.len() as int)
                    } else {
                        0
                    }),
            decreases parts.node_modes@.len() - v,
        {
            found_for.push(
                if parts.raw.flags[v] == 0 {
                    parts.node_modes[v] & needed
                } else {
                    0
                },
            );
            v = v + 1;
        }
        assert(ways.len() == ways@.len());
        proof {
            lemma_sources(g, ways@, ways@.len() as int);
            assert(work_of(parts.raw.graph.edges@).len() == parts.raw.graph.edges@.len());
        }
        let net = Network { res, parts, lines, relations, node_to_relations, found_for };
        proof {
            assert(net.relations.len() == net.relations@.len());
            assert forall|v: int, j: int|
                #![trigger net.node_to_relations@[v]@[j]]
                0 <= v < net.node_to_relations@.len() && 0 <= j
                    < net.node_to_relations@[v]@.len() implies net.node_to_relations@[v]@[j]
                < net.relations@.len() by {
                lemma_routes_at_below(net.relations@, net.relations@.len() as int, v);
            }
        }
        net
    }
}

proof fn lemma_passes_below(list: Seq<usize>, nodes: Seq<usize>, k: int, route: usize, v: int)
    requires
        k <= nodes.len(),
        forall|j: int| #![trigger list[j]] 0 <= j < list.len() ==> list[j] < route,
    ensures
        forall|j: int|
            #![trigger passes(list, nodes, k, route, v)[j]]
            0 <= j < passes(list, nodes, k, route, v).len() ==> passes(list, nodes, k, route, v)[j]
                <= route,
    decreases k,
{
    if k > 0 {
        lemma_passes_below(list, nodes, k - 1, route, v);
        let a = passes(list, nodes, k - 1, route, v);
        let b = passes(list, nodes, k, route, v);
        assert forall|j: int| #![trigger b[j]] 0 <= j < b.len() implies b[j] <= route by {
            if j < a.len() {
                assert(b[j] == a[j]);
            }
        }
    }
}

/// The routes at a node are among those that have been looked at.
proof fn lemma_routes_at_below(routes: Seq<OsmRelation>, n: int, v: int)
    requires
        0 <= n <= routes.len(),
        n <= usize::MAX,
    ensures
        forall|j: int|
            #![trigger routes_at(routes, n, v)[j]]
            0 <= j < routes_at(routes, n, v).len() ==> routes_at(routes, n, v)[j] < n,
    decreases n,
{
    if n > 0 {
        lemma_routes_at_below(routes, n - 1, v);
        let nodes = routes[n - 1].nodes@;
        lemma_passes_below(
            routes_at(routes, n - 1, v),
            nodes,
            nodes.len() as int,
            (n - 1) as usize,
            v,
        );
    }
}

/// The relations that have not been looked at.
pub open spec fn unvisited(t: Tables, c: Course) -> Set<i64> {
    t.rel_at.dom().difference(c.visited)
}

proof fn lemma_visited_stay(t: Tables, depth: nat, id: i64, c: Course)
    ensures
        c.visited.subset_of(flattened(t, depth, id, c).visited),
    decreases depth, 0nat,
{
    if depth != 0 && !c.visited.contains(id) && t.rel_at.contains_key(id) {
        let d = Course { visited: c.visited.insert(id), ..c };
        let members = t.rels[t.rel_at[id] as int].members@;
        lemma_visited_stay_members(t, (depth - 1) as nat, members, members.len(), d);
    }
}

proof fn lemma_visited_stay_members(
    t: Tables,
    depth: nat,
    members: Seq<Member>,
    n: nat,
    c: Course,
)
    ensures
        c.visited.subset_of(members_followed(t, depth, members, n, c).visited),
    decreases depth, n + 1,
{
    if n > 0 {
        let d = members_followed(t, depth, members, (n - 1) as nat, c);
        lemma_visited_stay_members(t, depth, members, (n - 1) as nat, c);
        if let OsmId::Relation(id) = members[n - 1].member {
            lemma_visited_stay(t, depth, id, d);
        }
    }
}

proof fn lemma_depth_members(
    t: Tables,
    a: nat,
    b: nat,
    members: Seq<Member>,
    n: nat,
    c: Course,
)
    requires
        t.rel_at.dom().finite(),
        unvisited(t, c).len() < a,
        unvisited(t, c).len() < b,
    ensures
        members_followed(t, a, members, n, c) == members_followed(t, b, members, n, c),
    decreases a, n + 1,
{
    if n > 0 {
        lemma_depth_members(t, a, b, members, (n - 1) as nat, c);
        let d = members_followed(t, a, members, (n - 1) as nat, c);
        lemma_visited_stay_members(t, a, members, (n - 1) as nat, c);
        assert(unvisited(t, d).subset_of(unvisited(t, c)));
        vstd::set_lib::lemma_len_subset(unvisited(t, d), unvisited(t, c));
        if let OsmId::Relation(id) = members[n - 1].member {
            lemma_any_depth(t, a, b, id, d);
        }
    }
}

/// However deep relations are nested, and even if they contain one another, a route is followed to its end:
/// a depth greater than the number of relations that have not been looked at makes no difference.
pub proof fn lemma_any_depth(t: Tables, a: nat, b: nat, id: i64, c: Course)
    requires
        t.rel_at.dom().finite(),
        unvisited(t, c).len() < a,
        unvisited(t, c).len() < b,
    ensures
        flattened(t, a, id, c) == flattened(t, b, id, c),
    decreases a, 0nat,
{
    if !c.visited.contains(id) && t.rel_at.contains_key(id) {
        let d = Course { visited: c.visited.insert(id), ..c };
        assert(unvisited(t, d) =~= unvisited(t, c).remove(id));
        let members = t.rels[t.rel_at[id] as int].members@;
        assert(unvisited(t, c).contains(id));
        if a == 1 {
            assert(unvisited(t, c).len() == 0);
            assert(unvisited(t, c) =~= Set::<i64>::empty());
        }
        lemma_depth_members(t, (a - 1) as nat, (b - 1) as nat, members, members.len(), d);
    }
}

proof fn lemma_positions_finite(rels: Seq<PreRelation>)
    ensures
        relation_positions(rels).dom().finite(),
        relation_positions(rels).dom().len() <= rels.len(),
    decreases rels.len(),
{
    if rels.len() > 0 {
        lemma_positions_finite(rels.drop_last());
        let rest = relation_positions(rels.drop_last());
        assert(relation_positions(rels).dom() =~= rest.dom().insert(rels.last().id));
    }
}

/// What a route passes does not depend on any limit to the nesting of relations.
pub proof fn lemma_route_complete(parts: NetworkParts, rels: Seq<PreRelation>, id: i64, depth: nat)
    requires
        depth > rels.len(),
    ensures
        course_of_route(tables_of(parts, rels), id) == flattened(
            tables_of(parts, rels),
            depth,
            id,
            no_course(),
        ),
{
    let t = tables_of(parts, rels);
    lemma_positions_finite(rels);
    assert(unvisited(t, no_course()) =~= t.rel_at.dom());
    lemma_any_depth(t, rels.len() + 1, depth, id, no_course());
}

/// What the edges of a network cost, by the ways that they come from.
pub open spec fn network_costs(
    sources: Seq<usize>,
    ways: Seq<Way>,
    maxspeeds: Seq<Option<i64>>,
    lengths_mm: Seq<u64>,
) -> Seq<u32> {
    Seq::new(
        sources.len(),
        |e: int|
            cost_on(
                ways[sources[e] as int].tags,
                maxspeeds[sources[e] as int],
                lengths_mm[e] as nat,
            ),
    )
}

proof fn lemma_sources(g: Ground, ways: Seq<Way>, n: int)
    requires
        0 <= n <= ways.len() <= usize::MAX,
    ensures
        edge_sources(g, ways, n).len() == network_edges(g, ways, n).len(),
        forall|e: int|
            #![trigger edge_sources(g, ways, n)[e]]
            0 <= e < edge_sources(g, ways, n).len() ==> edge_sources(g, ways, n)[e] < n,
    decreases n,
{
    if n > 0 {
        lemma_sources(g, ways, n - 1);
        let rest = edge_sources(g, ways, n - 1);
        let all = edge_sources(g, ways, n);
        assert forall|e: int| #![trigger all[e]] 0 <= e < all.len() implies all[e] < n by {
            if e < rest.len() {
                assert(all[e] == rest[e]);
            }
        }
    }
}

impl Network {
    /// Whether each edge of the network knows its way, out of so many.
    pub open spec fn fits(&self, ways: nat) -> bool {
        &&& self.parts.raw.wf()
        &&& self.parts.edge_ways@.len() == self.parts.raw.graph.edges@.len()
        &&& forall|e: int|
            #![trigger self.parts.edge_ways@[e]]
            0 <= e < self.parts.edge_ways@.len() ==> self.parts.edge_ways@[e] < ways
    }

    /// Gives the edges their costs, given their lengths and the posted limits of the ways, and adds the
    /// opposites that they lack.
    pub fn finish(&mut self, ways: &Vec<Way>, maxspeeds: &Vec<Option<i64>>, lengths_mm: &Vec<u64>)
        requires
            old(self).fits(ways@.len()),
            maxspeeds@.len() == ways@.len(),
            lengths_mm@.len() == old(self).parts.raw.graph.edges@.len(),
        ensures
            final(self).parts.raw.graph.wf(),
            final(self).lines == old(self).lines,
            final(self).relations == old(self).relations,
            final(self).node_to_relations == old(self).node_to_relations,
            final(self).found_for == old(self).found_for,
            final(self).parts.raw.graph.nodes@.len() == old(self).parts.raw.graph.nodes@.len(),
            forall|v: int|
                #![trigger final(self).parts.raw.graph.nodes@[v]]
                0 <= v < old(self).parts.raw.graph.nodes@.len() ==> {
                    let n = final(self).parts.raw.graph.nodes@[v];
                    &&& n.payload.point == old(self).parts.raw.graph.nodes@[v].payload.point
                    &&& is_number(
                        final(self).parts.raw.graph.edges@,
                        v,
                        n.payload.comp_id as int,
                    )
                },
            work_of(final(self).parts.raw.graph.edges@) == post_processed(
                costed(
                    work_of(old(self).parts.raw.graph.edges@),
                    network_costs(
                        old(self).parts.edge_ways@,
                        ways@,
                        maxspeeds@,
                        lengths_mm@,
                    ),
                ),
            ),
    {
        let mut costs: Vec<u32> = Vec::new();
        let mut e: usize = 0;
        let ghost expected = network_costs(
            self.parts.edge_ways@,
            ways@,
            maxspeeds@,
            lengths_mm@,
        );
        while e < self.parts.edge_ways.len()
            invariant
                *self == *old(self),
                self.fits(ways@.len()),
                maxspeeds@.len() == ways@.len(),
                lengths_mm@.len() == self.parts.raw.graph.edges@.len(),
                expected == network_costs(self.parts.edge_ways@, ways@, maxspeeds@, lengths_mm@),
                e <= self.parts.edge_ways@.len(),
                costs@ == expected.take(e as int),
            decreases self.parts.edge_ways@.len() - e,
        {
            let w: usize = self.parts.edge_ways[e];
            assert(self.parts.edge_ways@[e as int] < ways@.len());
            costs.push(OsmBuilder::calculate_cost(&ways[w].tags, maxspeeds[w], lengths_mm[e]));
            assert(costs@ =~= expected.take(e + 1));
            e = e + 1;
        }
        assert(costs@ =~= expected);
        set_costs(&mut self.parts.raw.graph, &costs);
        OsmBuilder::post_process(&mut self.parts.raw.graph);
    }
}

/// How many nodes near a stop are looked at.
pub const NEAR_NODES: usize = 50;

/// The nodes, among the first `n`, that may be found near a stop of some modes.
pub open spec fn found_places(net: Network, modes: u8, n: int) -> Seq<(Point, usize)>
    decreases n,
{
    if n <= 0 {
        Seq::empty()
    } else if (net.found_for@[n - 1] & modes) != 0 {
        found_places(net, modes, n - 1).push(
            (net.parts.raw.graph.nodes@[n - 1].payload.point, (n - 1) as usize),
        )
    } else {
        found_places(net, modes, n - 1)
    }
}

/// All nodes that may be found near a stop of some modes.
pub open spec fn all_found(net: Network, modes: u8) -> Seq<(Point, usize)> {
    found_places(net, modes, net.found_for@.len() as int)
}

/// The routes at places, place by place.
pub open spec fn gathered(lists: Seq<Vec<usize>>, places: Seq<(Point, usize)>, n: int) -> Seq<usize>
    decreases n,
{
    if n <= 0 {
        Seq::empty()
    } else {
        gathered(lists, places, n - 1) + lists[places[n - 1].1 as int]@
    }
}

/// Whether routes are those at the nodes that are nearest to a stop.
pub open spec fn are_near(net: Network, modes: u8, p: Point, routes: Seq<usize>) -> bool {
    exists|near: Seq<(Point, usize)>| #[trigger]
        are_nearest_places(all_found(net, modes), p, NEAR_NODES as int, near) && routes == gathered(
            net.node_to_relations@,
            near,
            near.len() as int,
        )
}

proof fn lemma_gathered_below(
    net: Network,
    modes: u8,
    places: Seq<(Point, usize)>,
    n: int,
)
    requires
        net.has_lists(),
        net.lists_routes(),
        net.found_for@.len() <= usize::MAX,
        0 <= n <= places.len(),
        forall|x: (Point, usize)| #[trigger] places.contains(x) ==> all_found(net, modes).contains(x),
    ensures
        forall|j: int|
            #![trigger gathered(net.node_to_relations@, places, n)[j]]
            0 <= j < gathered(net.node_to_relations@, places, n).len() ==> gathered(
                net.node_to_relations@,
                places,
                n,
            )[j] < net.relations@.len(),
    decreases n,
{
    if n > 0 {
        lemma_gathered_below(net, modes, places, n - 1);
        lemma_found_places(net, modes, net.found_for@.len() as int);
        let all = all_found(net, modes);
        assert(places.contains(places[n - 1]));
        let k = choose|k: int| 0 <= k < all.len() && all[k] == places[n - 1];
        assert(all[k].1 < net.found_for@.len());
        let v = places[n - 1].1 as int;
        let a = gathered(net.node_to_relations@, places, n - 1);
        let b = gathered(net.node_to_relations@, places, n);
        assert forall|j: int| #![trigger b[j]] 0 <= j < b.len() implies b[j] < net.relations@.len() by {
            if j < a.len() {
                assert(b[j] == a[j]);
            } else {
                assert(b[j] == net.node_to_relations@[v]@[j - a.len()]);
            }
        }
    }
}

/// The routes near a stop are routes of the network.
pub(crate) proof fn lemma_near_below(net: Network, modes: u8, p: Point, routes: Seq<usize>)
    requires
        net.has_lists(),
        net.lists_routes(),
        net.found_for@.len() <= usize::MAX,
        are_near(net, modes, p, routes),
    ensures
        forall|j: int|
            #![trigger routes[j]]
            0 <= j < routes.len() ==> routes[j] < net.relations@.len(),
{
    let near = choose|near: Seq<(Point, usize)>| #[trigger]
        are_nearest_places(all_found(net, modes), p, NEAR_NODES as int, near) && routes == gathered(
            net.node_to_relations@,
            near,
            near.len() as int,
        );
    lemma_gathered_below(net, modes, near, near.len() as int);
}

proof fn lemma_found_places(net: Network, modes: u8, n: int)
    requires
        0 <= n <= usize::MAX,
    ensures
        found_places(net, modes, n).no_duplicates(),
        forall|i: int|
            #![trigger found_places(net, modes, n)[i]]
            0 <= i < found_places(net, modes, n).len() ==> found_places(net, modes, n)[i].1 < n,
    decreases n,
{
    if n > 0 {
        lemma_found_places(net, modes, n - 1);
        let rest = found_places(net, modes, n - 1);
        let all = found_places(net, modes, n);
        assert forall|i: int| #![trigger all[i]] 0 <= i < all.len() implies all[i].1 < n by {
            if i < rest.len() {
                assert(all[i] == rest[i]);
            }
        }
        assert forall|i: int, j: int| 0 <= i < all.len() && 0 <= j < all.len() && i != j implies all[i]
            != all[j] by {
            if i < rest.len() {
                assert(all[i] == rest[i]);
            }
            if j < rest.len() {
                assert(all[j] == rest[j]);
            }
        }
    }
}

impl Network {
    /// Whether there are lists for all nodes.
    pub open spec fn has_lists(&self) -> bool {
        &&& self.found_for@.len() == self.parts.raw.graph.nodes@.len()
        &&& self.node_to_relations@.len() == self.parts.raw.graph.nodes@.len()
    }

    /// Whether the lists hold routes of the network.
    pub open spec fn lists_routes(&self) -> bool {
        forall|v: int, j: int|
            #![trigger self.node_to_relations@[v]@[j]]
            0 <= v < self.node_to_relations@.len() && 0 <= j < self.node_to_relations@[v]@.len()
                ==> self.node_to_relations@[v]@[j] < self.relations@.len()
    }

    /// A tree of the nodes that may be found near a stop of some modes.
    pub fn node_tree(&self, modes: u8) -> (t: NodeTree)
        requires
            self.has_lists(),
        ensures
            nodes_in(t) == all_found(*self, modes).to_multiset(),
    {
        let mut points: Vec<(Point, usize)> = Vec::new();
        let mut i: usize = 0;
        while i < self.found_for.len()
            invariant
                self.has_lists(),
                i <= self.found_for@.len(),
                points@ == found_places(*self, modes, i as int),
            decreases self.found_for@.len() - i,
        {
            if (self.found_for[i] & modes) != 0 {
                points.push((self.parts.raw.graph.nodes[i].payload.point, i));
            }
            i = i + 1;
        }
        load_nodes(points)
    }

    /// The routes at the nodes that are nearest to a stop.
    pub fn relations_near(&self, tree: &NodeTree, modes: u8, p: Point) -> (r: Vec<usize>)
        requires
            self.has_lists(),
            nodes_in(*tree) == all_found(*self, modes).to_multiset(),
        ensures
            are_near(*self, modes, p, r@),
    {
        assert(self.found_for.len() == self.found_for@.len());
        let ghost all = all_found(*self, modes);
        proof {
            lemma_found_places(*self, modes, self.found_for@.len() as int);
        }
        let near = nearest_places(tree, p, NEAR_NODES, Ghost(all));
        let mut r: Vec<usize> = Vec::new();
        let mut i: usize = 0;
        while i < near.len()
            invariant
                self.has_lists(),
                i <= near@.len(),
                all == found_places(*self, modes, self.found_for@.len() as int),
                forall|k: int|
                    #![trigger all[k]]
                    0 <= k < all.len() ==> all[k].1 < self.found_for@.len(),
                forall|x: (Point, usize)| #[trigger] near@.contains(x) ==> all.contains(x),
                r@ == gathered(self.node_to_relations@, near@, i as int),
            decreases near@.len() - i,
        {
            proof {
                assert(near@.contains(near@[i as int]));
                let k = choose|k: int| 0 <= k < all.len() && all[k] == near@[i as int];
                assert(all[k].1 < self.found_for@.len());
            }
            let list = &self.node_to_relations[near[i].1];
            let ghost before = r@;
            r.extend_from_slice(list.as_slice());
            assert(r@ =~= before + list@);
            i = i + 1;
        }
        r
    }
}

proof fn lemma_fewer_public(rels: Seq<Relation>)
    ensures
        public_relations(rels).len() <= rels.len(),
    decreases rels.len(),
{
    if rels.len() > 0 {
        lemma_fewer_public(rels.drop_last());
    }
}

// What the lists of routes are.

/// The positions of routes are those of all relations of that type, ascending.
pub proof fn lemma_route_positions(rels: Seq<PreRelation>, n: int)
    requires
        0 <= n <= rels.len() <= usize::MAX,
    ensures
        forall|x: usize| #[trigger]
            route_positions(rels, n).contains(x) <==> x < n && rels[x as int].tags.val("type"@) == Some(
                "route"@,
            ),
        forall|a: int, b: int|
            #![trigger route_positions(rels, n)[a], route_positions(rels, n)[b]]
            0 <= a < b < route_positions(rels, n).len() ==> route_positions(rels, n)[a]
                < route_positions(rels, n)[b],
    decreases n,
{
    if n > 0 {
        lemma_route_positions(rels, n - 1);
        let rest = route_positions(rels, n - 1);
        let all = route_positions(rels, n);
        assert forall|x: usize| #[trigger] all.contains(x) <==> x < n && rels[x as int].tags.val(
            "type"@,
        ) == Some("route"@) by {
            if rest.contains(x) {
                let i = choose|i: int| 0 <= i < rest.len() && rest[i] == x;
                assert(all[i] == x);
            }
            if all.contains(x) {
                let i = choose|i: int| 0 <= i < all.len() && all[i] == x;
                if i < rest.len() {
                    assert(rest[i] == x);
                    assert(rest.contains(x));
                }
            }
            if x == n - 1 && all.len() > rest.len() {
                assert(all[rest.len() as int] == x);
            }
        }
        assert forall|a: int, b: int|
            #![trigger all[a], all[b]]
            0 <= a < b < all.len() implies all[a] < all[b] by {
            assert(rest.contains(rest[a]));
            if b < rest.len() {
                assert(rest[a] < rest[b]);
            }
        }
    }
}

proof fn lemma_passes(list: Seq<usize>, nodes: Seq<usize>, k: int, route: usize, v: int, x: usize)
    requires
        0 <= k <= nodes.len(),
    ensures
        passes(list, nodes, k, route, v).contains(x) <==> list.contains(x) || (x == route
            && exists|i: int| 0 <= i < k && #[trigger] nodes[i] == v),
    decreases k,
{
    if k > 0 {
        lemma_passes(list, nodes, k - 1, route, v, x);
        let rest = passes(list, nodes, k - 1, route, v);
        let all = passes(list, nodes, k, route, v);
        assert(nodes[k - 1] == v || nodes[k - 1] != v);
        if rest.contains(x) {
            let i = choose|i: int| 0 <= i < rest.len() && rest[i] == x;
            assert(all[i] == x);
        }
        if all.contains(x) && !rest.contains(x) {
            let i = choose|i: int| 0 <= i < all.len() && all[i] == x;
            assert(i == rest.len());
        }
        if all.len() > rest.len() {
            assert(all[rest.len() as int] == route);
        }
    }
}

/// A route is listed at a node if and only if it passes the node.
pub proof fn lemma_routes_at(routes: Seq<OsmRelation>, n: int, v: usize, x: usize)
    requires
        0 <= n <= routes.len() <= usize::MAX,
    ensures
        routes_at(routes, n, v as int).contains(x) <==> x < n && routes[x as int].nodes@.contains(v),
    decreases n,
{
    if n > 0 {
        lemma_routes_at(routes, n - 1, v, x);
        let nodes = routes[n - 1].nodes@;
        lemma_passes(
            routes_at(routes, n - 1, v as int),
            nodes,
            nodes.len() as int,
            (n - 1) as usize,
            v as int,
            x,
        );
    }
}

/// A node may be found near a stop if and only if one of the modes asked for is among its own, and is found
/// where it lies.
pub proof fn lemma_found_where_it_lies(net: Network, modes: u8, n: int, p: Point, v: usize)
    requires
        0 <= n <= net.found_for@.len() <= usize::MAX,
    ensures
        found_places(net, modes, n).contains((p, v)) <==> v < n && net.found_for@[v as int] & modes
            != 0 && net.parts.raw.graph.nodes@[v as int].payload.point == p,
    decreases n,
{
    if n > 0 {
        lemma_found_where_it_lies(net, modes, n - 1, p, v);
        let rest = found_places(net, modes, n - 1);
        let all = found_places(net, modes, n);
        if rest.contains((p, v)) {
            let i = choose|i: int| 0 <= i < rest.len() && rest[i] == (p, v);
            assert(all[i] == (p, v));
        }
        if all.contains((p, v)) && !rest.contains((p, v)) {
            let i = choose|i: int| 0 <= i < all.len() && all[i] == (p, v);
            assert(i == rest.len());
        }
        if all.len() > rest.len() {
            assert(all[rest.len() as int] == all.last());
        }
    }
}

/// The routes gathered at places are those listed at one of them.
pub proof fn lemma_gathered(lists: Seq<Vec<usize>>, places: Seq<(Point, usize)>, n: int, x: usize)
    requires
        0 <= n <= places.len(),
    ensures
        gathered(lists, places, n).contains(x) <==> exists|i: int|
            0 <= i < n && lists[(#[trigger] places[i]).1 as int]@.contains(x),
    decreases n,
{
    if n > 0 {
        lemma_gathered(lists, places, n - 1, x);
        let rest = gathered(lists, places, n - 1);
        let here = lists[places[n - 1].1 as int]@;
        let all = gathered(lists, places, n);
        assert(all == rest + here);
        if rest.contains(x) {
            let i = choose|i: int| 0 <= i < rest.len() && rest[i] == x;
            assert(all[i] == x);
        }
        if here.contains(x) {
            let i = choose|i: int| 0 <= i < here.len() && here[i] == x;
            assert(all[rest.len() + i] == x);
        }
        if all.contains(x) {
            let i = choose|i: int| 0 <= i < all.len() && all[i] == x;
            if i < rest.len() {
                assert(rest[i] == x);
            } else {
                assert(here[i - rest.len()] == x);
            }
        }
    }
}

/// A mode is needed if and only if one of the types of routes needs it.
pub proof fn lemma_modes_needed(types: Seq<RouteType>, n: int, mode: u8)
    requires
        0 <= n <= types.len(),
    ensures
        modes_needed(types, n) & mode != 0 <==> exists|i: int|
            0 <= i < n && mode_needed(#[trigger] types[i]) & mode != 0,
    decreases n,
{
    if n <= 0 {
        assert(0u8 & mode == 0) by (bit_vector);
    } else {
        lemma_modes_needed(types, n - 1, mode);
        let x = modes_needed(types, n - 1);
        let y = mode_needed(types[n - 1]);
        assert((x | y) & mode != 0 <==> x & mode != 0 || y & mode != 0) by (bit_vector);
    }
}

/// Whether nothing of what a route passes is lost or moved, and what comes new comes behind it.
pub open spec fn goes_on_as(c: Course, d: Course) -> bool {
    &&& c.nodes.len() <= d.nodes.len()
    &&& d.nodes.take(c.nodes.len() as int) == c.nodes
    &&& c.ways.len() <= d.ways.len()
    &&& d.ways.take(c.ways.len() as int) == c.ways
    &&& c.edges.subset_of(d.edges)
}

proof fn lemma_goes_on_further(a: Course, b: Course, c: Course)
    requires
        goes_on_as(a, b),
        goes_on_as(b, c),
    ensures
        goes_on_as(a, c),
{
    assert(c.nodes.take(a.nodes.len() as int) =~= c.nodes.take(b.nodes.len() as int).take(
        a.nodes.len() as int,
    ));
    assert(c.ways.take(a.ways.len() as int) =~= c.ways.take(b.ways.len() as int).take(
        a.ways.len() as int,
    ));
}

proof fn lemma_relation_goes_on(t: Tables, depth: nat, id: i64, c: Course)
    ensures
        goes_on_as(c, flattened(t, depth, id, c)),
    decreases depth, 0nat,
{
    let d = Course { visited: c.visited.insert(id), ..c };
    assert(c.nodes.take(c.nodes.len() as int) =~= c.nodes);
    assert(c.ways.take(c.ways.len() as int) =~= c.ways);
    if depth > 0 && !c.visited.contains(id) && t.rel_at.contains_key(id) {
        let members = t.rels[t.rel_at[id] as int].members@;
        lemma_members_go_on(t, (depth - 1) as nat, members, 0, members.len(), d);
    }
}

proof fn lemma_members_go_on(
    t: Tables,
    depth: nat,
    members: Seq<Member>,
    m: nat,
    n: nat,
    c: Course,
)
    requires
        m <= n <= members.len(),
    ensures
        goes_on_as(
            members_followed(t, depth, members, m, c),
            members_followed(t, depth, members, n, c),
        ),
    decreases depth, n + 1,
{
    let a = members_followed(t, depth, members, m, c);
    assert(a.nodes.take(a.nodes.len() as int) =~= a.nodes);
    assert(a.ways.take(a.ways.len() as int) =~= a.ways);
    if m < n {
        lemma_members_go_on(t, depth, members, m, (n - 1) as nat, c);
        let d = members_followed(t, depth, members, (n - 1) as nat, c);
        let e = members_followed(t, depth, members, n, c);
        match members[n - 1].member {
            OsmId::Node(id) => {
                assert(e == with_node(t, id, d));
                assert(e.nodes.take(d.nodes.len() as int) =~= d.nodes);
                assert(e.ways.take(d.ways.len() as int) =~= d.ways);
            },
            OsmId::Way(id) => {
                assert(e == with_way(t, id, d));
                assert(e.nodes.take(d.nodes.len() as int) =~= d.nodes);
                assert(e.ways.take(d.ways.len() as int) =~= d.ways);
            },
            OsmId::Relation(id) => {
                lemma_relation_goes_on(t, depth, id, d);
            },
        }
        lemma_goes_on_further(a, d, e);
    }
}

/// Whether a route runs along a path without leaving it.
pub open spec fn runs_along(c: Course, path: Seq<usize>, at: int) -> bool {
    &&& 0 <= at <= c.nodes.len() - path.len()
    &&& c.nodes.subrange(at, at + path.len()) == path
}

/// A route runs along each way of its relation, from node to node, and uses its edges; it passes each node of
/// its relation that is no stop.
pub proof fn lemma_route_passes_members(t: Tables, id: i64, i: int)
    requires
        t.rel_at.contains_key(id),
        0 <= i < t.rels[t.rel_at[id] as int].members@.len(),
    ensures
        ({
            let c = course_of_route(t, id);
            match t.rels[t.rel_at[id] as int].members@[i].member {
                OsmId::Way(way) => {
                    &&& t.paths.contains_key(way) ==> exists|at: int| #[trigger]
                        runs_along(c, t.paths[way], at)
                    &&& t.paths.contains_key(way) && t.paths[way].len() >= 2 ==> c.ways.contains(
                        t.paths[way],
                    )
                    &&& t.edges.contains_key(way) ==> forall|e: usize|
                        t.edges[way].contains(e) ==> #[trigger] c.edges.contains(e)
                },
                OsmId::Node(node) => t.node_at.contains_key(node) && t.stop[t.node_at[node] as int] == 0
                    ==> c.nodes.contains(t.node_at[node]),
                _ => true,
            }
        }),
{
    let members = t.rels[t.rel_at[id] as int].members@;
    let depth = t.rels.len();
    let start = Course { visited: no_course().visited.insert(id), ..no_course() };
    let c = course_of_route(t, id);
    assert(c == members_followed(t, depth, members, members.len(), start));
    let d = members_followed(t, depth, members, i as nat, start);
    let e = members_followed(t, depth, members, (i + 1) as nat, start);
    lemma_members_go_on(t, depth, members, (i + 1) as nat, members.len(), start);
    assert(goes_on_as(e, c));
    match members[i].member {
        OsmId::Way(way) => {
            assert(e == with_way(t, way, d));
            if t.paths.contains_key(way) {
                let path = t.paths[way];
                let at = d.nodes.len() as int;
                assert(e.nodes == d.nodes + path);
                assert(c.nodes.subrange(at, at + path.len()) =~= c.nodes.take(
                    e.nodes.len() as int,
                ).subrange(at, at + path.len()));
                assert(e.nodes.subrange(at, at + path.len()) =~= path);
                assert(runs_along(c, path, at));
                if path.len() >= 2 {
                    let k = d.ways.len() as int;
                    assert(e.ways[k] == path);
                    assert(c.ways.take(e.ways.len() as int)[k] == path);
                    assert(c.ways[k] == path);
                }
            }
            if t.edges.contains_key(way) {
                assert forall|x: usize| t.edges[way].contains(x) implies #[trigger] c.edges.contains(
                    x,
                ) by {
                    assert(t.edges[way].to_set().contains(x));
                    assert(e.edges.contains(x));
                }
            }
        },
        OsmId::Node(node) => {
            assert(e == with_node(t, node, d));
            if t.node_at.contains_key(node) && t.stop[t.node_at[node] as int] == 0 {
                let k = d.nodes.len() as int;
                assert(e.nodes[k] == t.node_at[node]);
                assert(c.nodes.take(e.nodes.len() as int)[k] == t.node_at[node]);
                assert(c.nodes[k] == t.node_at[node]);
            }
        },
        _ => {},
    }
}

} // verus!
