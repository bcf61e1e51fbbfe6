use geo::{HaversineDistance, Point as GeoPoint};
use pfaedle::edge_shape::{
    append_edge_slice, append_hop_geometry, oriented_edge_points, point_at_edge_progress,
    project_onto_segments, project_point_onto_edge, push_shape_point, EdgeShape,
};
use pfaedle::geometry::Point;
use pfaedle::graph::{
    EdgePL, Graph, NodePL, MODE_BUS, MODE_FERRY, MODE_GONDOLA, MODE_RAIL, MODE_SUBWAY, MODE_TRAM,
};
use pfaedle::matcher::{
    allowed_modes_for, candidate_map, fallback_modes_for, fits_stops, match_one_pattern, route_name,
    routing_options_for, shape_result, snap_rules_for, stop_group,
};
use pfaedle::mots::RouteType;
use pfaedle::pathfinding::PathfinderContext;
use pfaedle::router::hop_cache::HopCache;
use pfaedle::router::router_impl::{RouterImpl, Task};
use pfaedle::router::trip_trie::{TrieStop, TrieTrip, TripTrie, TripTrieNd};
use pfaedle::router::types::{EdgeHop, WHOLE_EDGE};
use pfaedle::router::weights::{ExpoTransWeight, RoutingAttrs};
use pfaedle::sequence::match_sequence_globally_optimal;
use pfaedle::snapping::{
    build_match_edge_index, edge_candidates_for_stop, edges_near_stop, snap_envelope,
    INDEXED_MODES,
    ProjectedEdgeCandidate,
};

fn point(x: f64, y: f64) -> Point {
    Point { x: (x * 1e7).round() as i32, y: (y * 1e7).round() as i32 }
}

fn geo(p: Point) -> GeoPoint<f64> {
    GeoPoint::new(p.x as f64 / 1e7, p.y as f64 / 1e7)
}

fn millimetres(a: Point, b: Point) -> u64 {
    (geo(a).haversine_distance(&geo(b)) * 1000.0).round() as u64
}

fn shape(points: Vec<Point>) -> EdgeShape {
    let lengths_mm = points.windows(2).map(|w| millimetres(w[0], w[1])).collect();
    EdgeShape { points, lengths_mm }
}

fn lon_scale(p: Point) -> u32 {
    ((geo(p).y().to_radians().cos().abs().max(0.01)) * 1e4).round() as u32
}

/// The nearest place on an edge, its distance in metres, and its progress.
fn project(graph: &Graph<NodePL, EdgePL>, edge: usize, p: Point) -> Option<(Point, f64, f64)> {
    let points = oriented_edge_points(graph, edge);
    let projections = project_onto_segments(&points, p, lon_scale(p));
    let distances = projections.iter().map(|x| millimetres(p, x.point)).collect();
    let lengths = shape(points).lengths_mm;
    project_point_onto_edge(&projections, &distances, &lengths)
        .map(|(q, d, t)| (q, d as f64 / 1000.0, t as f64 / WHOLE_EDGE as f64))
}

fn add(graph: &mut Graph<NodePL, EdgePL>, x: f64, y: f64) -> usize {
    graph.add_node(NodePL { comp_id: 0, point: point(x, y) })
}

#[test]
fn edge_projection_tracks_progress_along_the_edge() {
    let mut graph = Graph::new();
    let from = add(&mut graph, 0.0, 0.0);
    let to = add(&mut graph, 0.01, 0.0);
    let mut edge = EdgePL::new();
    edge.geometry = vec![point(0.0, 0.0), point(0.01, 0.0)];
    edge.allowed_modes = MODE_RAIL;
    edge.osmid = 1;
    let edge_idx = graph.add_edge(from, to, edge);

    let (_, distance_m, progress) = project(&graph, edge_idx, point(0.005, 0.001)).unwrap();
    assert!((0.45..0.55).contains(&progress));
    assert!((100.0..125.0).contains(&distance_m));
}

#[test]
fn fallback_hops_are_emitted_as_geometry() {
    let hop = EdgeHop {
        edges: Vec::new(),
        start_edge: None,
        end_edge: None,
        start_progr: 0,
        end_progr: 0,
        start_point: Some(point(-88.0, 42.0)),
        end_point: Some(point(-88.1, 42.1)),
    };
    let mut points = Vec::new();

    append_hop_geometry(&mut points, &hop, &vec![], None, None);

    let points: Vec<(f64, f64)> =
        points.iter().map(|p| (p.y as f64 / 1e7, p.x as f64 / 1e7)).collect();
    assert_eq!(points, vec![(42.0, -88.0), (42.1, -88.1)]);
}

#[test]
fn routed_hops_are_cropped_to_candidate_progress() {
    let mut graph = Graph::new();
    let from = add(&mut graph, 0.0, 0.0);
    let to = add(&mut graph, 1.0, 0.0);
    let mut edge = EdgePL::new();
    edge.geometry = vec![point(0.0, 0.0), point(1.0, 0.0)];
    let edge_idx = graph.add_edge(from, to, edge);
    let hop = EdgeHop {
        edges: vec![edge_idx],
        start_edge: Some(edge_idx),
        end_edge: Some(edge_idx),
        start_progr: 250_000_000,
        end_progr: 750_000_000,
        start_point: None,
        end_point: None,
    };
    let mut points = Vec::new();

    let shapes = vec![shape(oriented_edge_points(&graph, edge_idx))];
    append_hop_geometry(&mut points, &hop, &shapes, None, None);

    assert_eq!(points.len(), 2);
    assert!((points[0].x as f64 / 1e7 - 0.25).abs() < 1e-9);
    assert!((points[1].x as f64 / 1e7 - 0.75).abs() < 1e-9);
}

#[test]
fn test_backtracking_dead_end() {
    // Track A: 0 -> 1 -> Dead End
    // Track B: 2 -> 3 -> 4 (Success)
    let mut graph = Graph::new();
    let n0 = add(&mut graph, 0.0, 0.0);
    let n1 = add(&mut graph, 1.0, 0.0);
    let n2 = add(&mut graph, 0.0, 1.0);
    let n3 = add(&mut graph, 1.0, 1.0);
    let n4 = add(&mut graph, 2.0, 1.0);

    let mut link = |a: usize, b: usize| {
        let mut e = EdgePL::new();
        e.cost = 10;
        e.allowed_modes = 255;
        e.geometry = vec![graph.node(a).payload.point, graph.node(b).payload.point];
        graph.add_edge(a, b, e);
    };
    link(n0, n1);
    link(n2, n3);
    link(n3, n4);

    // Stop 1: [0, 2] (0 is closer/first)
    // Stop 2: [1, 3] (1 is closer/first)
    // Stop 3: [4]
    let stop_candidates = vec![vec![n0, n2], vec![n1, n3], vec![n4]];
    let cosines = vec![vec![1_000_000_000; 2], vec![1_000_000_000; 2], vec![1_000_000_000; 1]];

    let mut ctx = PathfinderContext::new();
    let result = match_sequence_globally_optimal(
        &stop_candidates,
        &graph,
        255,
        0,
        None,
        &cosines,
        &mut ctx,
    );

    // Should succeed by picking 2 -> 3 -> 4
    assert!(result.is_some());
    let points = result.unwrap();
    assert!(points.len() > 1);
    assert_eq!(points, vec![point(0.0, 1.0), point(1.0, 1.0), point(2.0, 1.0)]);
}

#[test]
fn a_sequence_with_an_unreachable_stop_has_no_way() {
    let mut graph: Graph<NodePL, EdgePL> = Graph::new();
    let n0 = add(&mut graph, 0.0, 0.0);
    let n1 = add(&mut graph, 0.1, 0.0);
    let mut ctx = PathfinderContext::new();
    let c = 1_000_000_000;
    let r = match_sequence_globally_optimal(
        &vec![vec![n0], vec![n1]],
        &graph,
        255,
        0,
        None,
        &vec![vec![c], vec![c]],
        &mut ctx,
    );
    assert_eq!(r, None);
    let none = match_sequence_globally_optimal(&vec![], &graph, 255, 0, None, &vec![], &mut ctx);
    assert_eq!(none, None);
    // Both stops at the same node.
    let same = match_sequence_globally_optimal(
        &vec![vec![n0], vec![n1, n0]],
        &graph,
        255,
        0,
        None,
        &vec![vec![c], vec![c, c]],
        &mut ctx,
    );
    assert_eq!(same, Some(vec![point(0.0, 0.0)]));
}

fn trie_node(time: i64, arr: bool, parent: usize, childs: Vec<usize>) -> TripTrieNd {
    TripTrieNd {
        stop_name: "Stop".to_string(),
        platform: "".to_string(),
        pos: point(0.0, 0.0),
        place: 0,
        time,
        arr,
        trip_time: time,
        trips: 1,
        parent: Some(parent),
        childs,
        r_attrs: RoutingAttrs::default(),
        acc_time: time as i128,
    }
}

fn trie_nodes() -> Vec<TripTrieNd> {
    let mut root = trie_node(0, false, 0, vec![1]);
    root.stop_name = "ROOT".to_string();
    root.parent = None;
    root.trips = 0;
    vec![
        root,
        trie_node(100, false, 0, vec![2]),
        trie_node(200, true, 1, vec![3]),
        trie_node(210, false, 2, vec![4]),
        trie_node(300, true, 3, vec![]),
    ]
}

#[test]
fn test_trie_depth_ecm_invariants() {
    let nds = trie_nodes();
    // The only node has no edges, so each stop has the null candidate only.
    let group = || stop_group(point(0.0, 0.0), &vec![], 0);
    let stop_candidates = vec![group(), group(), group()];

    let ecm = candidate_map(&nds, &stop_candidates);

    for (nid, group) in &ecm {
        assert!(!group.is_empty(), "group {} should not be empty", nid);
        assert!(
            group[0].edge.is_none(),
            "candidate 0 at node {} must be null candidate",
            nid
        );
        assert_eq!(group[0].pen as f64, 0.0);
    }

    let dep_group = &ecm[&3];
    let arr_group = &ecm[&2];
    assert_eq!(dep_group.len(), arr_group.len());
    for (i, cand) in dep_group.iter().enumerate() {
        assert_eq!(cand.dep_prede, vec![i]);
    }
}

#[test]
fn a_departure_before_the_arrival_has_no_predecessors() {
    let mut nds = trie_nodes();
    nds[3].acc_time = 199;
    nds[3].trips = 1;
    let snaps = vec![ProjectedEdgeCandidate { edge_idx: 0, distance_mm: 1_000, progress: 5 }];
    let group = || stop_group(point(0.0, 0.0), &snaps, 40_000_000);
    let ecm = candidate_map(&nds, &vec![group(), group(), group()]);
    assert!(!ecm.contains_key(&0));
    assert_eq!(ecm.len(), 4);
    assert_eq!(ecm[&2].len(), 2);
    assert_eq!(ecm[&2][1].pen, 40_390_000);
    assert_eq!(ecm[&2][1].time, 200_000_000_000);
    assert_eq!(ecm[&3][1].time, 199_000_000_000);
    assert!(ecm[&3][1].dep_prede.is_empty());
    // Averages are compared exactly: 401 / 2 is after 200.
    nds[2].acc_time = 401;
    nds[2].trips = 2;
    nds[3].acc_time = 200;
    let ecm = candidate_map(&nds, &vec![group(), group(), group()]);
    assert_eq!(ecm[&2][0].time, 200_500_000_000);
    assert!(ecm[&3][0].dep_prede.is_empty());
    // Beyond the last stop there are no candidates.
    let short = candidate_map(&nds, &vec![group()]);
    assert_eq!(short[&1].len(), 2);
    assert!(short[&4].is_empty());
}

#[test]
fn modes_and_rules_depend_on_the_type_of_the_route() {
    let allowed = |t: RouteType| allowed_modes_for(Some(t));
    assert_eq!(allowed(RouteType::Tramway), MODE_TRAM);
    assert_eq!(allowed(RouteType::Subway), MODE_SUBWAY);
    assert_eq!(allowed(RouteType::Rail), MODE_RAIL);
    assert_eq!(allowed(RouteType::Ferry), MODE_FERRY);
    assert_eq!(allowed(RouteType::Funicular), MODE_GONDOLA);
    assert_eq!(allowed(RouteType::Coach), MODE_BUS);
    assert_eq!(allowed_modes_for(None), MODE_BUS);
    assert_eq!(fallback_modes_for(Some(RouteType::Rail)), MODE_SUBWAY | MODE_TRAM);
    assert_eq!(fallback_modes_for(Some(RouteType::Bus)), 0);
    let rail = snap_rules_for(Some(RouteType::Rail));
    assert_eq!((rail.max_distance_mm, rail.max_level), (200_000, 2));
    assert_eq!(rail.non_station_penalty, 40_000_000);
    assert_eq!(rail.modes, MODE_RAIL | MODE_SUBWAY | MODE_TRAM);
    let bus = snap_rules_for(Some(RouteType::Bus));
    assert_eq!((bus.max_distance_mm, bus.max_level, bus.non_station_penalty), (50_000, 7, 0));
    let opts = routing_options_for(Some(RouteType::Rail));
    assert_eq!((opts.full_turn_punish_fac, opts.full_turn_angle), (1_800, 10_000));
    assert_eq!(opts.transition_pen, 83_000);
    assert_eq!(routing_options_for(None).full_turn_punish_fac, 0);
}

#[test]
fn blank_names_do_not_count() {
    let s = |t: &str| t.to_string();
    let (blank, a, b, c) = (s("  "), s("A"), s("B"), s("C"));
    assert_eq!(route_name(Some(&a), Some(&b), Some(&c)), "A");
    assert_eq!(route_name(Some(&blank), Some(&b), Some(&c)), "B");
    assert_eq!(route_name(None, Some(&blank), Some(&c)), "C");
    assert_eq!(route_name(None, None, Some(&blank)), "  ");
    assert_eq!(route_name(None, None, None), "");
}

#[test]
fn places_on_a_course_follow_its_lengths() {
    let s = EdgeShape {
        points: vec![point(0.0, 0.0), point(1.0, 0.0), point(1.0, 3.0)],
        lengths_mm: vec![1_000, 3_000],
    };
    assert_eq!(point_at_edge_progress(&s, 0), point(0.0, 0.0));
    assert_eq!(point_at_edge_progress(&s, 125_000_000), point(0.5, 0.0));
    assert_eq!(point_at_edge_progress(&s, 250_000_000), point(1.0, 0.0));
    assert_eq!(point_at_edge_progress(&s, 500_000_000), point(1.0, 1.0));
    assert_eq!(point_at_edge_progress(&s, u32::MAX), point(1.0, 3.0));
    let mut out = vec![point(0.0, 0.0)];
    append_edge_slice(&mut out, &s, 0, WHOLE_EDGE);
    // The first point is there already.
    assert_eq!(out, s.points);
    let mut back = Vec::new();
    append_edge_slice(&mut back, &s, 500_000_000, 125_000_000);
    assert_eq!(back, vec![point(1.0, 1.0), point(0.5, 0.0)]);
    push_shape_point(&mut back, point(0.5, 0.0));
    assert_eq!(back.len(), 2);
    // A course without length is all at its start.
    let still = EdgeShape { points: vec![point(2.0, 2.0), point(2.0, 2.0)], lengths_mm: vec![0] };
    assert_eq!(point_at_edge_progress(&still, 7), point(2.0, 2.0));
    assert_eq!(project_point_onto_edge(&vec![], &vec![], &vec![]), None);
}

#[test]
fn reversed_edges_are_drawn_backwards() {
    let mut graph = Graph::new();
    let a = add(&mut graph, 0.0, 0.0);
    let b = add(&mut graph, 1.0, 0.0);
    let mut e = EdgePL::new();
    e.geometry = vec![point(0.0, 0.0), point(0.5, 0.5), point(1.0, 0.0)];
    let r = e.rev_copy();
    let e = graph.add_edge(a, b, e);
    let r = graph.add_edge(b, a, r);
    let bare = graph.add_edge(b, a, EdgePL::new());
    let mut points = oriented_edge_points(&graph, e);
    points.reverse();
    assert_eq!(oriented_edge_points(&graph, r), points);
    assert_eq!(oriented_edge_points(&graph, bare), vec![point(1.0, 0.0), point(0.0, 0.0)]);
}

fn rail_edge(graph: &mut Graph<NodePL, EdgePL>, a: usize, b: usize, osmid: i64, modes: u8) -> usize {
    let mut e = EdgePL::new();
    e.geometry = vec![graph.node(a).payload.point, graph.node(b).payload.point];
    e.allowed_modes = modes;
    e.osmid = osmid;
    e.cost = 100;
    graph.add_edge(a, b, e)
}

#[test]
fn edges_near_a_stop_are_found_by_their_boxes() {
    let mut graph = Graph::new();
    let a = add(&mut graph, 0.0, 0.0);
    let b = add(&mut graph, 0.01, 0.0);
    let c = add(&mut graph, 0.5, 0.5);
    let near = rail_edge(&mut graph, a, b, 1, MODE_RAIL);
    let road = rail_edge(&mut graph, a, b, 2, MODE_BUS);
    let far = rail_edge(&mut graph, c, c, 3, MODE_RAIL);
    let tram = rail_edge(&mut graph, b, a, 4, MODE_TRAM);
    let minor = rail_edge(&mut graph, b, a, 5, MODE_RAIL);
    graph.edges[minor].payload.level = 3;
    let forbidden = rail_edge(&mut graph, b, a, 6, MODE_RAIL);
    graph.edges[forbidden].payload.oneway = 2;
    let index = build_match_edge_index(&graph, INDEXED_MODES);
    let stop = point(0.005, 0.0005);
    let mut found =
        edges_near_stop(&index, &graph, stop, MODE_RAIL | MODE_TRAM | MODE_BUS, 200_000, 2, 10_000);
    found.sort();
    assert_eq!(found, vec![near, tram]);
    assert!(!found.contains(&road) && !found.contains(&far));
    let roads = build_match_edge_index(&graph, MODE_BUS);
    assert_eq!(edges_near_stop(&roads, &graph, stop, MODE_BUS, 200_000, 2, 10_000), vec![road]);
    let envelope = snap_envelope(Point { x: 0, y: 0 }, 111_320, 5_000);
    assert_eq!((envelope.max_y, envelope.max_x), (10_000, 20_000));
}

#[test]
fn only_the_nearest_edge_of_a_way_is_a_candidate_in_each_direction() {
    let mut graph = Graph::new();
    let a = add(&mut graph, 0.0, 0.0);
    let b = add(&mut graph, 0.01, 0.0);
    for osmid in [1, 1, 0, 0, 2] {
        rail_edge(&mut graph, a, b, osmid, MODE_RAIL);
    }
    let back = graph.edges[0].payload.rev_copy();
    graph.add_edge(b, a, back);
    let hit = |e: usize, d: u64| (e, Some((point(0.0, 0.0), d, 7u32)));
    let hits =
        vec![hit(0, 30), hit(1, 20), hit(2, 20), hit(3, 10), hit(4, 101), hit(5, 25), (0, None)];
    let r = edge_candidates_for_stop(&graph, &hits, 100);
    let order: Vec<(usize, u64)> = r.iter().map(|c| (c.edge_idx, c.distance_mm)).collect();
    assert_eq!(order, vec![(3, 10), (1, 20), (2, 20), (5, 25)]);
}

fn stop(name: &str, p: Point, seconds: u32) -> TrieStop {
    TrieStop {
        name: name.to_string(),
        platform: String::new(),
        pos: p,
        place: (name == "B") as usize,
        distances_nm: if name == "B" { vec![u64::MAX, 0] } else { vec![0, u64::MAX] },
        arrival: Some(seconds),
        departure: Some(seconds),
    }
}

#[test]
fn a_pattern_is_routed_along_the_network_and_drawn() {
    let mut graph = Graph::new();
    let a = add(&mut graph, 0.0, 0.0);
    let b = add(&mut graph, 0.02, 0.0);
    let c = add(&mut graph, 0.04, 0.0);
    let e0 = rail_edge(&mut graph, a, b, 1, MODE_RAIL);
    let e1 = rail_edge(&mut graph, b, c, 2, MODE_RAIL);
    let stops = vec![point(0.01, 0.0), point(0.03, 0.0)];
    let index = build_match_edge_index(&graph, INDEXED_MODES);
    let rules = snap_rules_for(Some(RouteType::Rail));
    let groups = stops
        .iter()
        .map(|&p| {
            let edges = edges_near_stop(
                &index,
                &graph,
                p,
                rules.modes,
                rules.max_distance_mm,
                rules.max_level,
                10_000,
            );
            let hits = edges
                .iter()
                .map(|&e| {
                    let r = project(&graph, e, p);
                    let to_units = |(q, d, t): (Point, f64, f64)| {
                        (q, (d * 1000.0).round() as u64, (t * 1e9).round() as u32)
                    };
                    (e, r.map(to_units))
                })
                .collect();
            let snaps = edge_candidates_for_stop(&graph, &hits, rules.max_distance_mm as u64);
            stop_group(p, &snaps, rules.non_station_penalty)
        })
        .collect();
    let mut trie = TripTrie::new();
    let trip = TrieTrip {
        id: "t".to_string(),
        stop_times: vec![stop("A", stops[0], 0), stop("B", stops[1], 600)],
    };
    assert!(trie.add_trip(&trip, &RoutingAttrs::default(), false, false));
    assert!(fits_stops(&trie, 2));
    assert!(!fits_stops(&trie, 1));
    let dists = trie
        .get_nds()
        .iter()
        .map(|nd| nd.parent.map_or(0, |p| millimetres(trie.get_nd(p).pos, nd.pos)))
        .collect();
    let hops =
        match_one_pattern(&graph, Some(RouteType::Rail), &trie, &groups, &dists).unwrap();
    assert_eq!(hops.len(), 1);
    assert_eq!(hops[0].edges, vec![e0, e1]);
    let mut points = Vec::new();
    let shapes = hops[0].edges.iter().map(|&e| shape(oriented_edge_points(&graph, e))).collect();
    append_hop_geometry(&mut points, &hops[0], &shapes, None, None);
    assert_eq!(points.len(), 3);
    assert_eq!(points[1], point(0.02, 0.0));
    assert!((points[0].x - stops[0].x).abs() < 10 && (points[2].x - stops[1].x).abs() < 10);
    let r = shape_result("s".to_string(), &points);
    assert!(!r.empty_geometry && r.matched_route_color.is_none());
    // What is known of the hops from an earlier run leads to the same way.
    let ecm = candidate_map(trie.get_nds(), &groups);
    let opts = routing_options_for(Some(RouteType::Rail));
    let router: RouterImpl<ExpoTransWeight> = RouterImpl::new(&graph);
    let mut cache = HopCache::new();
    for (no_fast_hops, use_cache) in [(false, true), (false, true), (true, true), (true, false)] {
        let task =
            Task { ecm: &ecm, hop_dists: &dists, opts: &opts, no_fast_hops, use_cache };
        let routes = router.route(&trie, &task, &mut cache);
        assert_eq!(routes.len(), 1);
        let (leaf, hops) = routes.into_iter().next().unwrap();
        assert!(trie.get_nd_trips().contains_key(&leaf));
        assert_eq!(hops[0].edges, vec![e0, e1]);
    }
    // A tree without trips has no hops.
    let empty = TripTrie::new();
    assert!(match_one_pattern(&graph, None, &empty, &vec![], &vec![0]).is_none());
}

#[test]
fn stops_off_the_network_are_joined_by_straight_lines() {
    let graph: Graph<NodePL, EdgePL> = Graph::new();
    let stops = vec![point(0.01, 0.0), point(0.03, 0.0)];
    let groups = stops.iter().map(|&p| stop_group(p, &vec![], 0)).collect();
    let mut trie = TripTrie::new();
    let trip = TrieTrip {
        id: "t".to_string(),
        stop_times: vec![stop("A", stops[0], 0), stop("B", stops[1], 600)],
    };
    trie.add_trip(&trip, &RoutingAttrs::default(), false, false);
    let dists = vec![0; trie.get_nds().len()];
    let hops = match_one_pattern(&graph, Some(RouteType::Bus), &trie, &groups, &dists).unwrap();
    let mut points = Vec::new();
    for hop in &hops {
        append_hop_geometry(&mut points, hop, &vec![], None, None);
    }
    assert_eq!(points, stops);
}

#[test]
fn a_tree_with_two_ends_gives_the_hops_of_one_of_them() {
    let graph: Graph<NodePL, EdgePL> = Graph::new();
    let stops = [point(0.01, 0.0), point(0.03, 0.0), point(0.03, 0.02)];
    let trip = |id: &str, places: &[usize]| TrieTrip {
        id: id.to_string(),
        stop_times: places
            .iter()
            .enumerate()
            .map(|(k, &i)| {
                let mut s = stop(&i.to_string(), stops[i], 600 * k as u32);
                s.place = i;
                s.distances_nm = (0..3).map(|j| if i == j { 0 } else { 2_000_000_000 }).collect();
                s
            })
            .collect(),
    };
    let mut trie = TripTrie::new();
    for t in [trip("a", &[0, 1]), trip("b", &[0, 2])] {
        assert!(trie.add_trip(&t, &RoutingAttrs::default(), false, false));
    }
    assert_eq!(trie.get_nd_trips().len(), 2);
    let groups = vec![stop_group(stops[0], &vec![], 0), stop_group(stops[1], &vec![], 0)];
    let dists = vec![0; trie.get_nds().len()];
    let hops = match_one_pattern(&graph, Some(RouteType::Bus), &trie, &groups, &dists).unwrap();
    assert_eq!(hops.len(), 1);
    assert_eq!(hops[0].start_point, Some(stops[0]));
    assert!(hops[0].end_point == Some(stops[1]) || hops[0].end_point == Some(stops[2]));
    // Each end has its own hops.
    let ecm = candidate_map(trie.get_nds(), &groups);
    let opts = routing_options_for(Some(RouteType::Bus));
    let router: RouterImpl<ExpoTransWeight> = RouterImpl::new(&graph);
    let task =
        Task { ecm: &ecm, hop_dists: &dists, opts: &opts, no_fast_hops: false, use_cache: true };
    let routes = router.route(&trie, &task, &mut HopCache::new());
    assert_eq!(routes.len(), 2);
    for (leaf, trips) in trie.get_nd_trips() {
        let end = if trips[0] == "a" { stops[1] } else { stops[2] };
        assert_eq!(routes[leaf][0].end_point, Some(end));
    }
}
