use ahash::AHashSet;
use pfaedle::batches::plan_batches;
use pfaedle::geometry::Point;
use pfaedle::graph::{EdgePL, Graph, NodePL, MODE_BUS, MODE_RAIL, MODE_TRAM};
use pfaedle::grouping::{
    complete_places, group_routes, known_places, order_by_key, road_profile_for_route_type,
};
use pfaedle::hilbert::route_hilbert_index;
use pfaedle::id_list::{contains_id, sort_dedup};
use pfaedle::light_osm::LightOsmData;
use pfaedle::mots::RouteType;
use pfaedle::network_routes::OsmRelation;
use pfaedle::osm::{Member, OsmId, OsmNode, Relation, Way};
use pfaedle::osm_builder::OsmBuilder;
use pfaedle::osm_profile::{
    cost_for_profile, oneway, parse_level, profile_for_route_types, relation_kept_for_profile,
    routing_level, speed_for_profile, way_kept_for_profile, way_mode_mask, OsmProfile,
};
use pfaedle::osm_split::{NodeData, OsmSplitter, TileItem, WayData};
use pfaedle::records::{split_records, write_record, TileBuffers, TruncatedRecord};
use pfaedle::resources::identify_resources_for_profile;
use pfaedle::route_color::{best_route_color, RouteLabels};
use pfaedle::rules::{bus_level, bus_oneway, bus_speed_mps, coach_speed_mps};
use pfaedle::tags::Tags;
use pfaedle::tile_graph::{attach_bus_transit_lines, finish_tiles, merge_tiles, RoadProfile};
use pfaedle::tile_loader::{compute_route_tiles, TileCoord};

fn tags(values: &[(&str, &str)]) -> Tags {
    let mut tags = Tags::new();
    for &(key, value) in values {
        tags.insert(key.into(), value.into());
    }
    tags
}

fn point(x: f64, y: f64) -> Point {
    Point { x: (x * 1e7).round() as i32, y: (y * 1e7).round() as i32 }
}

fn node(id: i64, x: f64) -> OsmNode {
    OsmNode { id, point: point(x, 0.0), tags: Tags::new() }
}

fn way(id: i64, nodes: &[i64], t: &[(&str, &str)]) -> Way {
    Way { id, nodes: nodes.to_vec(), tags: tags(t) }
}

fn relation(id: i64, ways: &[i64], t: &[(&str, &str)]) -> Relation {
    let members =
        ways.iter().map(|&w| Member { member: OsmId::Way(w), role: String::new() }).collect();
    Relation { id, members, tags: tags(t) }
}

#[test]
fn the_last_value_given_to_a_key_counts() {
    let t = tags(&[("a", "1"), ("c1", "x"), ("a", "2"), ("b", "3")]);
    assert_eq!(t.get("a").map(|s| s.as_str()), Some("2"));
    assert_eq!(t.get("c1").map(|s| s.as_str()), Some("x"));
    assert!(t.contains_key("b") && !t.contains_key("c"));
    assert!(t.is("b", "3") && t.is3("b", "x", "y", "3") && !t.is2("b", "x", "y"));
}

#[test]
fn lists_of_identifiers_are_sorted_once() {
    let mut v = vec![5, -1, 5, 3, 3];
    sort_dedup(&mut v);
    assert_eq!(v, vec![-1, 3, 5]);
    assert!(contains_id(&v, 3) && !contains_id(&v, 4));
}

#[test]
fn profiles_serve_route_types() {
    assert_eq!(profile_for_route_types(&vec![RouteType::Rail]), OsmProfile::Rail);
    let both = vec![RouteType::Tramway, RouteType::Subway];
    assert_eq!(profile_for_route_types(&both), OsmProfile::TramSubway);
    assert_eq!(profile_for_route_types(&vec![RouteType::Bus]), OsmProfile::Generic(MODE_BUS));
    assert_eq!(OsmProfile::TramSubway.allowed_modes(), 6);
    let ferry = AHashSet::new();
    let road = way(1, &[1, 2], &[("highway", "primary")]);
    assert!(way_kept_for_profile(&road, OsmProfile::Bus, &ferry));
    assert!(!way_kept_for_profile(&road, OsmProfile::Rail, &ferry));
    let track = way(1, &[1, 2], &[("railway", "rail")]);
    assert!(way_kept_for_profile(&track, OsmProfile::Rail, &ferry));
    assert_eq!(way_mode_mask(&track, &ferry), MODE_RAIL);
    assert_eq!(way_mode_mask(&way(1, &[], &[("railway", "tram")]), &ferry), MODE_TRAM);
    assert!(relation_kept_for_profile(&tags(&[("type", "route"), ("route", "bus")]), OsmProfile::Bus));
    assert!(!relation_kept_for_profile(
        &tags(&[("type", "route"), ("route", "hiking")]),
        OsmProfile::Bus
    ));
}

#[test]
fn levels_speeds_and_costs_go_together() {
    assert_eq!(speed_for_profile(0, OsmProfile::Rail), 120);
    assert_eq!(speed_for_profile(99, OsmProfile::Rail), 5);
    assert_eq!(speed_for_profile(-3, OsmProfile::Bus), 85);
    // A kilometre at 120 km/h takes half a minute.
    assert_eq!(cost_for_profile(0, OsmProfile::Rail, 1_000_000), 300);
    assert_eq!(bus_speed_mps(0), 85);
    assert_eq!(coach_speed_mps(0), 120);
    assert_eq!(parse_level(&tags(&[("service", "spur")])), 5);
    assert_eq!(parse_level(&tags(&[("service", "siding")])), 2);
    assert_eq!(routing_level(&tags(&[("usage", "branch")]), OsmProfile::Rail), 1);
    let primary = bus_level(&tags(&[("highway", "primary")]));
    assert!(primary < bus_level(&tags(&[("highway", "residential")])));
    assert_eq!(bus_oneway(&tags(&[("oneway", "yes")])), 1);
    assert_eq!(bus_oneway(&tags(&[("oneway", "yes"), ("oneway:bus", "no")])), 0);
    assert_eq!(oneway(&tags(&[("oneway", "-1")]), OsmProfile::Bus), 2);
}

#[test]
fn costs_by_tags_never_assume_less_than_a_slow_walk() {
    let cost = |t: &[(&str, &str)], v: Option<i64>, mm: u64| {
        OsmBuilder::calculate_cost(&tags(t), v, mm)
    };
    assert_eq!(cost(&[("railway", "rail")], Some(5_000), 1_000_000), 300);
    assert_eq!(cost(&[("highway", "motorway")], None, 1_000_000), 360);
    assert_eq!(cost(&[], Some(0), 1_000), 100);
    assert_eq!(cost(&[], Some(-7), 1_000), 100);
    assert_eq!(OsmBuilder::get_speed(&tags(&[("aerialway", "x"), ("route", "y")]), None), 15_000);
    assert!(OsmBuilder::is_route_geometry_role("forward"));
    assert!(!OsmBuilder::is_route_geometry_role("stop"));
}

fn rail_extract() -> (Vec<Relation>, Vec<OsmNode>, Vec<Way>) {
    let relations = vec![relation(
        100,
        &[10],
        &[("type", "route"), ("route", "train"), ("ref", "RE1"), ("from", "A"), ("to", "B")],
    )];
    let nodes = vec![node(1, 0.0), node(2, 0.1), node(3, 0.2), node(4, 9.0)];
    let ways = vec![
        way(10, &[1, 2, 3], &[("railway", "rail")]),
        way(11, &[3, 4], &[("highway", "primary")]),
    ];
    (relations, nodes, ways)
}

#[test]
fn a_network_is_read_from_an_extract() {
    let (relations, nodes, ways) = rail_extract();
    let collapsed =
        OsmBuilder::read(relations, &nodes, &ways, &vec![RouteType::Rail], None, false);
    assert_eq!(collapsed.profile, OsmProfile::Rail);
    // The inner node of the track has been collapsed.
    assert_eq!(collapsed.graph.nodes.len(), 2);
    assert_eq!(collapsed.graph.edges.len(), 1);
    assert_eq!(collapsed.graph.edges[0].payload.geometry.len(), 3);
    let lengths = vec![2_000_000];
    assert_eq!(OsmBuilder::edge_costs(&collapsed.graph, &lengths, OsmProfile::Rail).len(), 1);
    let graph = OsmBuilder::finish(collapsed, &lengths);
    assert_eq!(graph.edges.len(), 2);
    assert!(graph.edges[1].payload.is_reverse);
    assert_eq!(graph.edges[0].payload.cost, 600);
    assert_eq!(graph.transit_lines.len(), 1);
    assert_eq!(graph.transit_lines[0].short_name, "RE1");
    assert_eq!(graph.edges[0].payload.lines, vec![0]);
    assert_eq!(graph.nodes[0].payload.comp_id, graph.nodes[1].payload.comp_id);
}

#[test]
fn what_a_profile_needs_is_found() {
    let (relations, _, ways) = rail_extract();
    let res = identify_resources_for_profile(relations, &ways, OsmProfile::Rail, false);
    assert_eq!(res.kept_ways, vec![10]);
    assert_eq!(res.needed_nodes, vec![1, 2, 3]);
    assert_eq!(res.pre_relations.len(), 1);
    assert!(res.ways_in_relations.contains(&10));
    assert!(OsmBuilder::is_valid_way(&ways[0]));
    assert!(OsmBuilder::is_infrastructure(&ways[0]) && !OsmBuilder::is_platform(&ways[0]));
}

fn bus_extract() -> (Vec<Relation>, Vec<OsmNode>, Vec<Way>) {
    let relations = vec![
        relation(
            1,
            &[10],
            &[("type", "route"), ("route", "bus"), ("ref", "7"), ("colour", "red"), ("operator", "Op")],
        ),
        relation(2, &[10], &[("type", "route"), ("route", "train"), ("ref", "8")]),
    ];
    let nodes = vec![node(1, 0.05), node(2, 0.1), node(3, 0.25)];
    let ways = vec![way(10, &[1, 2, 3], &[("highway", "primary")])];
    (relations, nodes, ways)
}

#[test]
fn bus_routes_know_their_ways_and_colours() {
    let (relations, _, _) = bus_extract();
    let light = LightOsmData::read_relations_only(&relations);
    assert_eq!(light.relations.len(), 1);
    assert_eq!(light.relations_for_way(10).len(), 1);
    assert!(light.relations_for_way(11).is_empty());
    assert_eq!(light.find_color(Some("7"), None, Some("op")), Some("red".to_string()));
    assert_eq!(light.find_color(Some("9"), None, None), None);
    let short = "7".to_string();
    let long = "SEVEN".to_string();
    let color = light.color_of_route(Some(&short), Some(&long), &"op".to_string());
    assert_eq!(color, Some("red".to_string()));
    assert_eq!(light.color_of_route(Some(&"9".to_string()), None, &"none".to_string()), None);
}

#[test]
fn extracts_are_split_into_tiles_and_put_together_again() {
    let (relations, nodes, ways) = bus_extract();
    let light = LightOsmData::read_relations_only(&relations);
    let res = OsmBuilder::identify_resources(relations, &ways, false);
    let mut splitter = OsmSplitter::new();
    let mut items: Vec<TileItem> = Vec::new();
    let mut tile_of: Vec<TileCoord> = Vec::new();
    for n in &nodes {
        let (tile, record) = splitter.add_node(n, &res).unwrap();
        tile_of.push(tile);
        items.push(TileItem::Node(record));
    }
    assert!(splitter.add_node(&node(99, 0.0), &res).is_none());
    assert_eq!(tile_of[0], tile_of[1]);
    assert_ne!(tile_of[0], tile_of[2]);
    let (tiles, record) = splitter.add_way(&ways[0], &res).unwrap();
    assert_eq!(tiles, vec![tile_of[0], tile_of[2]]);
    let copies = splitter.copies_for_tile(&ways[0].nodes, tile_of[2]);
    assert_eq!(copies.iter().map(|c| c.id).collect::<Vec<_>>(), vec![1, 2]);
    items.push(TileItem::Way(record));
    for c in copies {
        items.push(TileItem::Node(c));
    }
    let mut graph = merge_tiles(&items, &light, RoadProfile::Bus);
    assert_eq!(graph.nodes.len(), 2);
    assert_eq!(graph.edges.len(), 1);
    assert_eq!(graph.edges[0].payload.allowed_modes, MODE_BUS);
    assert_eq!(graph.transit_lines[0].short_name, "7");
    finish_tiles(&mut graph, &vec![1_000_000], RoadProfile::Bus);
    assert_eq!(graph.edges.len(), 2);
    assert!(graph.edges[0].payload.cost > 0);
}

#[test]
fn road_profiles_read_their_own_levels() {
    let w = WayData {
        id: 1,
        refs: vec![],
        bus_level: 2,
        coach_level: 5,
        oneway: 0,
        restriction: false,
    };
    assert_eq!((RoadProfile::Bus.level(&w), RoadProfile::Coach.level(&w)), (2, 5));
    assert_eq!(RoadProfile::Coach.speed_mps(1), 90);
    assert_eq!(road_profile_for_route_type(Some(RouteType::Coach)), RoadProfile::Coach);
    assert_eq!(road_profile_for_route_type(Some(RouteType::Bus)), RoadProfile::Bus);
    let n = NodeData { id: 1, point: point(0.0, 0.0), flags: 0 };
    assert_eq!(n.flags, 0);
}

#[test]
fn records_come_back_as_they_were_written() {
    let records: Vec<Vec<u8>> = vec![vec![1, 2, 3], vec![], vec![255; 300]];
    let mut bytes = Vec::new();
    for r in &records {
        write_record(&mut bytes, r);
    }
    assert_eq!(&bytes[..7], &[3, 0, 0, 0, 1, 2, 3]);
    assert_eq!(split_records(&bytes), Ok(records));
    bytes.pop();
    assert_eq!(split_records(&bytes), Err(TruncatedRecord));
}

#[test]
fn buffers_hold_the_records_of_a_tile() {
    let t = TileCoord { x: 1, y: -1 };
    let mut buffers = TileBuffers::new();
    assert!(buffers.append(t, &vec![7, 8]).is_none());
    assert!(buffers.append(t, &vec![9]).is_none());
    let bytes = buffers.take(t);
    assert_eq!(split_records(&bytes), Ok(vec![vec![7, 8], vec![9]]));
    assert!(buffers.take(t).is_empty());
}

#[test]
fn routes_are_grouped_by_the_tiles_that_they_share() {
    let t = |x: i32| TileCoord { x, y: 0 };
    let groups = group_routes(&vec![
        vec![t(2), t(1)],
        vec![t(2)],
        (10..59).map(t).collect(),
        vec![t(3)],
    ]);
    assert_eq!(groups.iter().map(|g| (g.from, g.to)).collect::<Vec<_>>(), vec![(0, 2), (2, 4)]);
    assert_eq!(groups[0].tiles, vec![t(1), t(2)]);
    assert_eq!(groups[1].tiles.len(), 50);
    assert_eq!(order_by_key(&vec![5, 1, 5, 0]), vec![3, 1, 0, 2]);
}

#[test]
fn the_best_fitting_relation_gives_the_colour() {
    let rel = |t: &[(&str, &str)]| OsmRelation {
        id: 1,
        tags: tags(t),
        nodes: vec![],
        edges: AHashSet::new(),
        member_ways: vec![],
    };
    let relations = vec![
        rel(&[("ref", "12"), ("colour", "blue")]),
        rel(&[("ref", "7"), ("colour", "red"), ("operator", "City Buses")]),
        rel(&[("ref", "7")]),
        rel(&[("ref", "7"), ("colour", "green")]),
    ];
    let labels = RouteLabels {
        short_name: Some("7".to_string()),
        long_name: None,
        agency_name: Some("City".to_string()),
    };
    let near = vec![vec![0, 1, 1, 2], vec![0, 2, 3], vec![0, 2, 3], vec![0, 1]];
    // The operator decides between the two that bear the name.
    assert_eq!(best_route_color(&relations, &near, &labels), Some("red".to_string()));
    let few = vec![vec![1], vec![0], vec![0]];
    assert_eq!(best_route_color(&relations, &few, &labels), Some("blue".to_string()));
    assert_eq!(best_route_color(&relations, &vec![vec![1]], &labels), None);
    assert_eq!(best_route_color(&relations, &vec![vec![2], vec![2]], &labels), None);
}

#[test]
fn places_that_are_not_known_are_left_out() {
    let p = |x: i32| Point { x, y: 0 };
    assert_eq!(known_places(&vec![Some(p(1)), None, Some(p(3)), None]), vec![p(1), p(3)]);
    assert!(known_places(&vec![None]).is_empty());
    assert_eq!(complete_places(&vec![Some(p(1)), Some(p(3))]), Some(vec![p(1), p(3)]));
    assert_eq!(complete_places(&vec![Some(p(1)), None, Some(p(3))]), None);
    assert_eq!(complete_places(&vec![Some(p(1))]), None);
}

#[test]
fn bus_routes_are_matched_agency_by_agency_along_the_curve() {
    let names: Vec<String> = ["b", "a", "a", "a", "a"].iter().map(|s| s.to_string()).collect();
    let profiles = vec![
        RoadProfile::Bus,
        RoadProfile::Coach,
        RoadProfile::Bus,
        RoadProfile::Bus,
        RoadProfile::Bus,
    ];
    let at = |x: f64| vec![point(x, 10.0), point(x + 0.01, 10.0)];
    // The third route has one known stop; the last is far from the one before.
    let places = vec![at(0.1), at(0.1), vec![point(0.1, 10.0)], at(60.1), at(0.1)];
    let batches = plan_batches(&names, &profiles, &places);
    let told: Vec<(&str, RoadProfile, &[usize])> =
        batches.iter().map(|b| (b.agency.as_str(), b.profile, b.members.as_slice())).collect();
    let far = route_hilbert_index(&places[3]) < route_hilbert_index(&places[4]);
    let expected: &[usize] = if far { &[3, 4] } else { &[4, 3] };
    assert_eq!(
        told,
        vec![
            ("a", RoadProfile::Bus, expected),
            ("a", RoadProfile::Coach, &[1][..]),
            ("b", RoadProfile::Bus, &[0][..]),
        ]
    );
    assert_eq!(batches[1].tiles, compute_route_tiles(&places[1]));
    assert_eq!(
        batches[0].tiles.len(),
        compute_route_tiles(&places[3]).len() + compute_route_tiles(&places[4]).len()
    );
}

#[test]
fn edges_without_a_way_keep_their_lines() {
    let (relations, _, _) = bus_extract();
    let light = LightOsmData::read_relations_only(&relations);
    let mut graph = Graph::new();
    let a = graph.add_node(NodePL { comp_id: 0, point: point(0.0, 0.0) });
    let b = graph.add_node(NodePL { comp_id: 0, point: point(1.0, 0.0) });
    for (osmid, lines) in [(0, vec![7]), (10, vec![9]), (11, vec![3])] {
        let mut e = EdgePL::new();
        e.osmid = osmid;
        e.lines = lines;
        graph.add_edge(a, b, e);
    }
    attach_bus_transit_lines(&mut graph, &light);
    let lines: Vec<&Vec<u32>> = graph.edges.iter().map(|e| &e.payload.lines).collect();
    assert_eq!(lines, vec![&vec![7], &vec![0], &vec![]]);
    assert_eq!(graph.transit_lines[0].short_name, "7");
}
