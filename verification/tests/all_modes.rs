use pfaedle::agencies::{agency_name, group_by_agency, Agency};
use pfaedle::geometry::{BBox, Point};
use pfaedle::graph::{MODE_BUS, MODE_RAIL};
use pfaedle::mots::RouteType;
use pfaedle::network::named_line;
use pfaedle::network_routes::{Network, OsmRelation};
use pfaedle::osm::{Member, OsmId, OsmNode, Relation, Way};
use pfaedle::osm_load::OsmBuilder;
use pfaedle::route_color::{best_route_color, find_route_color_from_osm, RouteLabels};
use pfaedle::tags::Tags;
use pfaedle::tile_graph::RoadProfile;

fn tags(values: &[(&str, &str)]) -> Tags {
    let mut tags = Tags::new();
    for &(key, value) in values {
        tags.insert(key.into(), value.into());
    }
    tags
}

fn node(id: i64, x: i32, t: &[(&str, &str)]) -> OsmNode {
    OsmNode { id, point: Point { x, y: 0 }, tags: tags(t) }
}

fn way(id: i64, nodes: &[i64], t: &[(&str, &str)]) -> Way {
    Way { id, nodes: nodes.to_vec(), tags: tags(t) }
}

fn relation(id: i64, members: &[OsmId], t: &[(&str, &str)]) -> Relation {
    let members =
        members.iter().map(|&member| Member { member, role: String::new() }).collect();
    Relation { id, members, tags: tags(t) }
}

fn relations() -> Vec<Relation> {
    vec![
        relation(
            100,
            &[OsmId::Node(4), OsmId::Relation(101), OsmId::Way(11), OsmId::Node(3)],
            &[("type", "route"), ("route", "train"), ("ref", "S1"), ("colour", "green")],
        ),
        // Contains the first one, which contains it.
        relation(
            101,
            &[OsmId::Way(10), OsmId::Relation(100), OsmId::Relation(999)],
            &[("type", "route"), ("route", "train"), ("ref", "S1"), ("operator", "Op")],
        ),
        relation(102, &[OsmId::Way(10)], &[("type", "site")]),
    ]
}

fn nodes() -> Vec<OsmNode> {
    vec![
        node(1, 0, &[]),
        node(2, 1_000, &[]),
        node(3, 2_000, &[]),
        node(4, 500, &[("railway", "stop")]),
        node(5, 9_000_000, &[]),
        node(6, 3_000, &[]),
    ]
}

fn ways() -> Vec<Way> {
    vec![
        way(10, &[1, 4, 2], &[("railway", "rail")]),
        way(11, &[2, 3, 5], &[("railway", "rail"), ("layer", "-1")]),
        way(12, &[3, 6], &[("highway", "residential"), ("oneway", "-1")]),
        way(13, &[2, 6], &[("railway", "platform")]),
    ]
}

fn network(skip_small_roads: bool) -> Network {
    let bbox = Some(BBox { min_x: 0, min_y: 0, max_x: 10_000, max_y: 10 });
    let types = vec![RouteType::Rail, RouteType::Bus];
    OsmBuilder::read(relations(), &nodes(), &ways(), &types, bbox, skip_small_roads)
}

#[test]
fn the_nodes_that_a_network_needs_are_found() {
    let res = OsmBuilder::identify_resources(relations(), &ways(), false);
    assert_eq!(res.needed_nodes, vec![1, 2, 3, 4, 5, 6]);
    assert_eq!(res.pre_relations.len(), 2);
    assert!(res.ways_in_relations.contains(&10) && res.ways_in_relations.contains(&11));
    assert!(res.ways_in_ferry_relations.is_empty());
    let res = OsmBuilder::identify_resources(relations(), &ways(), true);
    assert_eq!(res.needed_nodes, vec![1, 2, 3, 4, 5]);
}

#[test]
fn a_network_has_the_edges_of_its_ways() {
    let net = network(false);
    let graph = &net.parts.raw.graph;
    assert_eq!(graph.nodes.len(), 5);
    let ends: Vec<_> = graph.edges.iter().map(|e| (e.from, e.to)).collect();
    assert_eq!(ends, vec![(0, 3), (3, 1), (1, 2), (2, 4)]);
    assert_eq!(net.parts.edge_ways, vec![0, 0, 1, 2]);
    assert_eq!(graph.edges[2].payload.level, -1);
    assert_eq!(graph.edges[3].payload.oneway, 2);
    assert_eq!(graph.edges[3].payload.allowed_modes, MODE_BUS);
    // The line without an operator comes first.
    assert_eq!(net.lines.len(), 2);
    assert_eq!(net.lines[1].operator, Some("Op".to_string()));
    assert_eq!(graph.edges[0].payload.lines, vec![1]);
    assert_eq!(graph.edges[2].payload.lines, vec![0]);
    // What is skipped leaves no node.
    assert_eq!(network(true).parts.raw.graph.nodes.len(), 4);
}

#[test]
fn routes_contain_what_their_relations_do() {
    let net = network(false);
    let routes: &Vec<OsmRelation> = &net.relations;
    assert_eq!(routes.iter().map(|r| r.id).collect::<Vec<_>>(), vec![100, 101]);
    assert_eq!(routes[0].nodes, vec![0, 3, 1, 1, 2, 2]);
    assert_eq!(routes[0].member_ways, vec![vec![0, 3, 1], vec![1, 2]]);
    assert_eq!(routes[0].edges.len(), 3);
    assert_eq!(routes[1].nodes, vec![0, 3, 1, 1, 2, 2]);
    assert_eq!(net.node_to_relations[1], vec![0, 0, 1, 1]);
    assert!(net.node_to_relations[4].is_empty());
}

#[test]
fn a_finished_network_can_be_travelled_both_ways() {
    let mut net = network(false);
    let ways = ways();
    net.finish(&ways, &vec![None; 4], &vec![1_000_000; 4]);
    let graph = &net.parts.raw.graph;
    assert_eq!(graph.edges.len(), 8);
    assert_eq!(graph.edges[0].payload.cost, 360);
    assert_eq!(graph.edges[4].payload.cost, 396);
    // Against the only allowed direction it costs a hundred times as much.
    assert_eq!(graph.edges[3].payload.cost, 1200 * 100);
    assert_eq!(graph.nodes[0].payload.comp_id, graph.nodes[4].payload.comp_id);
}

#[test]
fn routes_are_found_near_stops() {
    let net = network(false);
    assert_eq!(net.found_for, vec![MODE_RAIL, MODE_RAIL, MODE_RAIL | MODE_BUS, 0, MODE_BUS]);
    let tree = net.node_tree(MODE_RAIL);
    let near = net.relations_near(&tree, MODE_RAIL, Point { x: 1_900, y: 0 });
    assert_eq!(near, vec![0, 0, 1, 1, 0, 0, 1, 1, 0, 1]);
    let labels = RouteLabels {
        short_name: Some("s1".to_string()),
        long_name: None,
        agency_name: None,
    };
    let color = best_route_color(&net.relations, &vec![near.clone(), near], &labels);
    assert_eq!(color, Some("green".to_string()));
    let stops = vec![Point { x: 1_900, y: 0 }, Point { x: 0, y: 0 }];
    let found = |stops: &Vec<Point>, t: RouteType| {
        find_route_color_from_osm(&net, stops, Some(t), &labels)
    };
    assert_eq!(found(&stops, RouteType::Rail), Some("green".to_string()));
    // No node may be found near a stop of a ferry, and one stop is not enough.
    assert_eq!(found(&stops, RouteType::Ferry), None);
    assert_eq!(found(&stops[..1].to_vec(), RouteType::Rail), None);
    let roads = net.node_tree(MODE_BUS);
    let near = net.relations_near(&roads, MODE_BUS, Point { x: 3_000, y: 0 });
    assert_eq!(near, vec![0, 0, 1, 1]);
}

#[test]
fn lines_need_a_name_or_a_start() {
    assert!(named_line(&tags(&[("to", "B")])).is_none());
    let line = named_line(&tags(&[("from", "A"), ("name", "N")])).unwrap();
    assert_eq!((line.short_name.as_str(), line.from_str.as_str()), ("N", "A"));
}

#[test]
fn routes_are_grouped_by_agency_and_profile() {
    let agencies = vec![
        Agency { id: None, name: "No one".to_string() },
        Agency { id: Some("1".to_string()), name: "City BUS".to_string() },
        Agency { id: Some("1".to_string()), name: "Other".to_string() },
    ];
    assert_eq!(agency_name(Some(&"1".to_string()), &agencies), "city bus");
    assert_eq!(agency_name(Some(&"2".to_string()), &agencies), "zzz_unknown");
    assert_eq!(agency_name(None, &agencies), "zzz_unknown");
    let names: Vec<String> = ["b", "a", "b", "b"].iter().map(|s| s.to_string()).collect();
    let (bus, coach) = (RoadProfile::Bus, RoadProfile::Coach);
    let groups = group_by_agency(&names, &vec![coach, bus, bus, coach]);
    let keys: Vec<_> = groups.iter().map(|g| (g.agency.as_str(), g.profile)).collect();
    assert_eq!(keys, vec![("a", bus), ("b", bus), ("b", coach)]);
    assert_eq!(groups[2].patterns, vec![0, 3]);
}
