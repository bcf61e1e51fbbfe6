use ahash::AHashSet;
use pfaedle::geometry::Point;
use pfaedle::graph::{EdgePL, Graph, NodePL};
use pfaedle::osm::Way;
use pfaedle::osm_load::OsmBuilder;
use pfaedle::tags::Tags;

fn tags(values: &[(&str, &str)]) -> Tags {
    let mut tags = Tags::new();
    for &(key, value) in values {
        tags.insert(key.into(), value.into());
    }
    tags
}

fn way(id: i64, values: &[(&str, &str)]) -> Way {
    Way { id, tags: tags(values), nodes: vec![] }
}

/// The cost of a length in metres.
fn cost(values: &[(&str, &str)], metres: u64) -> u32 {
    OsmBuilder::calculate_cost(&tags(values), None, metres * 1000)
}

#[test]
fn test_calculate_cost_normal() {
    // Speed for rail is 100/3.6 approx 27.77 m/s
    // Length 100m -> time ~3.6s -> cost ~36
    let cost = cost(&[("railway", "rail")], 100);
    assert!(cost > 30 && cost < 40);
}

#[test]
fn test_calculate_cost_penalties() {
    let cost_normal = cost(&[("railway", "rail")], 100);
    let cost_yard = cost(&[("railway", "rail"), ("service", "yard")], 100);
    assert!(cost_yard > cost_normal * 9); // Expect ~10x
}

#[test]
fn test_calculate_cost_industrial() {
    let cost_normal = cost(&[("railway", "rail")], 100);
    let cost_industrial = cost(&[("railway", "rail"), ("usage", "industrial")], 100);
    assert!(cost_industrial > cost_normal * 9);
}

#[test]
fn test_is_infrastructure_platform() {
    let w = way(1, &[("railway", "platform")]);
    assert!(!OsmBuilder::is_infrastructure(&w));
    assert!(OsmBuilder::is_platform(&w));

    // Test mixed tags
    let mixed = way(2, &[("railway", "platform"), ("highway", "footway")]);
    assert!(!OsmBuilder::is_infrastructure(&mixed));
    assert!(OsmBuilder::is_platform(&mixed));
}

#[test]
fn test_is_platform_public_transport() {
    let w = way(1, &[("public_transport", "platform")]);
    assert!(OsmBuilder::is_platform(&w));
    assert!(!OsmBuilder::is_infrastructure(&w));
    assert!(OsmBuilder::is_platform(&w));
}

#[test]
fn test_is_infrastructure_industrial() {
    let w = way(1, &[("railway", "rail"), ("usage", "industrial")]);
    // Should be false because of usage=industrial
    assert!(!OsmBuilder::is_infrastructure(&w));

    // Without industrial, it should be true
    let w2 = way(2, &[("railway", "rail")]);
    assert!(OsmBuilder::is_infrastructure(&w2));
}

#[test]
fn test_calculate_cost_rail_industrial_extreme() {
    // Both factors apply, and the result is capped.
    let cost = cost(&[("railway", "rail"), ("usage", "industrial")], 100);
    assert_eq!(cost, u32::MAX);
}

fn two_nodes(preferred_direction: u8, oneway: u8) -> Graph<NodePL, EdgePL> {
    let mut graph = Graph::new();
    let n1 = graph.add_node(NodePL { comp_id: 0, point: Point { x: 0, y: 0 } });
    let n2 = graph.add_node(NodePL { comp_id: 0, point: Point { x: 1_000_000, y: 0 } });
    let mut edge_pl = EdgePL::new();
    edge_pl.geometry = vec![graph.nodes[n1].payload.point, graph.nodes[n2].payload.point];
    edge_pl.cost = 100;
    edge_pl.preferred_direction = preferred_direction;
    edge_pl.oneway = oneway;
    graph.add_edge(n1, n2, edge_pl);
    graph
}

#[test]
fn test_preferred_direction_costs() {
    // preferred_direction: forward
    let mut graph = two_nodes(1, 0);

    OsmBuilder::post_process(&mut graph);

    // Expected: 100 * 0.9 = 90
    assert_eq!(graph.edges[0].payload.cost, 90);
    // Expected: 100 * 1.2 = 120
    assert_eq!(graph.edges[1].payload.cost, 120);
}

#[test]
fn test_preferred_direction_backward() {
    // preferred_direction: backward
    let mut graph = two_nodes(2, 0);

    OsmBuilder::post_process(&mut graph);

    // Expected: 100 * 1.2 = 120
    assert_eq!(graph.edges[0].payload.cost, 120);
    // Expected: 120 / 1.2 * 0.9 = 90
    assert_eq!(graph.edges[1].payload.cost, 90);
}

#[test]
fn without_a_preference_the_way_back_is_a_tenth_dearer() {
    let mut graph = two_nodes(0, 1);
    OsmBuilder::post_process(&mut graph);
    assert_eq!(graph.edges.len(), 2);
    assert_eq!(graph.edges[0].payload.cost, 100);
    // The opposite of a one-way edge may not be used, and costs a hundred times as much.
    assert_eq!(graph.edges[1].payload.oneway, 2);
    assert_eq!(graph.edges[1].payload.cost, 11_000);
    assert_eq!(graph.nodes[0].payload.comp_id, graph.nodes[1].payload.comp_id);
}

#[test]
fn ways_are_classified_by_their_tags() {
    let mut ferries: AHashSet<i64> = AHashSet::new();
    ferries.insert(7);
    let none = (false, false, false, false, false, false);
    let class = |id: i64, t: &[(&str, &str)]| OsmBuilder::classify_way(&way(id, t), &ferries);
    assert_eq!(class(1, &[("railway", "light_rail")]), (true, false, false, false, false, false));
    assert_eq!(class(1, &[("railway", "tram")]), (false, true, false, false, false, false));
    assert_eq!(class(1, &[("railway", "subway")]), (false, false, true, false, false, false));
    assert_eq!(class(1, &[("highway", "primary")]), (false, false, false, true, false, false));
    assert_eq!(class(7, &[("highway", "primary")]), (false, false, false, false, true, false));
    assert_eq!(class(1, &[("aerialway", "gondola")]), (false, false, false, false, false, true));
    assert_eq!(class(1, &[("highway", "steps")]), none);
}

#[test]
fn values_are_read_from_tags() {
    assert_eq!(OsmBuilder::parse_level(&tags(&[("layer", "-1")])), -1);
    assert_eq!(OsmBuilder::parse_level(&tags(&[("layer", "+2")])), 2);
    assert_eq!(OsmBuilder::parse_level(&tags(&[("layer", "99999999999")])), 0);
    assert_eq!(OsmBuilder::parse_level(&tags(&[("layer", "one")])), 0);
    assert_eq!(OsmBuilder::parse_level(&tags(&[])), 0);
    assert_eq!(OsmBuilder::parse_oneway(&tags(&[("oneway", "yes")])), 1);
    assert_eq!(OsmBuilder::parse_oneway(&tags(&[("oneway", "-1")])), 2);
    assert_eq!(OsmBuilder::parse_oneway(&tags(&[("oneway", "no")])), 0);
    let preferred = |v: &str| {
        OsmBuilder::parse_preferred_direction(&tags(&[("railway:preferred_direction", v)]))
    };
    assert_eq!((preferred("forward"), preferred("backward"), preferred("both")), (1, 2, 0));
}

#[test]
fn speeds_come_from_the_limit_or_the_kind_of_way() {
    let speed = |t: &[(&str, &str)], limit: Option<i64>| OsmBuilder::get_speed(&tags(t), limit);
    assert_eq!(speed(&[("highway", "motorway")], Some(30_000)), 30_000);
    assert_eq!(speed(&[("highway", "motorway")], None), 100_000);
    assert_eq!(speed(&[("highway", "living_street")], None), 10_000);
    assert_eq!(speed(&[("railway", "subway")], None), 80_000);
    assert_eq!(speed(&[("route", "ferry")], None), 15_000);
    assert_eq!(speed(&[("route", "hiking")], None), 36_000);
    assert_eq!(speed(&[("aerialway", "gondola")], None), 15_000);
    assert_eq!(speed(&[], None), 36_000);
    // No speed at all never arrives.
    assert_eq!(OsmBuilder::calculate_cost(&tags(&[]), Some(0), 1), u32::MAX);
    assert_eq!(OsmBuilder::calculate_cost(&tags(&[]), Some(-5), 1), 0);
    assert_eq!(OsmBuilder::calculate_cost(&tags(&[]), Some(36_000), 1_000), 1);
    assert_eq!(OsmBuilder::calculate_cost(&tags(&[]), Some(36_000), 1_001), 2);
}
