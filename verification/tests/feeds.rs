use ahash::{AHashMap, AHashSet};
use pfaedle::geometry::Point;
use pfaedle::gtfs_load::{
    faster_stop_time_reader_injection, group_patterns, ordered_stops, positions_of, route_allowed,
    StopTime, StopTimeRow, TripStops,
};
use pfaedle::mots::{
    category_named, get_categories_from_string, is_bus_like, is_bus_like_route_type,
    map_extended_route_type, map_route_type_to_category, MotCategory, RouteType,
};
use pfaedle::profiles::{
    group_by_network, partition_patterns, patterns_bbox, patterns_of_network, profile_key,
    ProfileKey,
};
use pfaedle::shape_ids::{
    deduplicate_shape_ids, shape_id_for_hash, shape_id_for_pattern, to_decimal,
};
use pfaedle::tables::{
    find_column, first_colors, keeps_shape, no_shapes, note_new_shape, note_replaced_shape,
    reads_old_shapes, rewrite_route, rewrite_trip, shapes_of_trips, with_column,
};

fn strings(v: &[&str]) -> Vec<String> {
    v.iter().map(|s| s.to_string()).collect()
}

fn row(trip: &str, stop_sequence: u32, stop: Option<usize>) -> StopTimeRow {
    StopTimeRow { trip_id: trip.to_string(), stop_sequence, stop }
}

#[test]
fn rows_go_to_their_trips() {
    let mut trips: AHashMap<String, usize> = AHashMap::new();
    trips.insert("a".to_string(), 0);
    trips.insert("b".to_string(), 1);
    let rows = vec![
        row("a", 1, Some(5)),
        row("a", 2, Some(6)),
        row("x", 1, Some(7)),
        row("b", 1, None),
        row("b", 2, Some(8)),
    ];
    let times = faster_stop_time_reader_injection(rows, &trips, 2);
    assert_eq!(times.len(), 2);
    assert_eq!(
        times[0],
        vec![StopTime { stop_sequence: 1, stop: 5 }, StopTime { stop_sequence: 2, stop: 6 }]
    );
    assert_eq!(times[1], vec![StopTime { stop_sequence: 2, stop: 8 }]);
}

#[test]
fn stops_are_ordered_by_their_sequence() {
    let t = |stop_sequence: u32, stop: usize| StopTime { stop_sequence, stop };
    assert_eq!(ordered_stops(&vec![t(9, 1), t(3, 2), t(5, 3), t(3, 4)]), vec![2, 4, 3, 1]);
    assert!(ordered_stops(&vec![]).is_empty());
}

#[test]
fn trips_with_the_same_stops_share_a_pattern() {
    let trip = |route_type: Option<RouteType>, stops: &[usize]| TripStops {
        route_type,
        times: stops
            .iter()
            .enumerate()
            .map(|(i, &stop)| StopTime { stop_sequence: i as u32, stop })
            .collect(),
    };
    let bus = Some(RouteType::Bus);
    let trips = vec![
        trip(bus, &[1, 2]),
        trip(Some(RouteType::Rail), &[1, 2]),
        trip(bus, &[1, 2]),
        trip(None, &[1, 2]),
        trip(bus, &[]),
    ];
    let groups = group_patterns(&trips);
    assert_eq!(groups.len(), 2);
    assert_eq!(groups[0].trips, vec![0, 2]);
    assert_eq!(groups[0].pattern.stop_ids, vec![1, 2]);
    assert_eq!(groups[1].trips, vec![1]);
    assert!(groups[0].pattern.same(&groups[0].pattern));
    assert!(!groups[0].pattern.same(&groups[1].pattern));
}

#[test]
fn modes_are_known_by_name() {
    assert_eq!(category_named("metro"), Some(MotCategory::Subway));
    assert_eq!(category_named("rocket"), None);
    assert_eq!(MotCategory::from_str("bus"), Ok(MotCategory::Bus));
    assert!(MotCategory::from_str("rocket").is_err());
    let some = get_categories_from_string("bus, tram").unwrap();
    assert!(route_allowed(RouteType::Bus, &some));
    assert!(route_allowed(RouteType::Tramway, &some));
    assert!(!route_allowed(RouteType::Rail, &some));
    assert!(get_categories_from_string("bus,rocket").is_err());
    let all = get_categories_from_string("all").unwrap();
    assert!(route_allowed(RouteType::Air, &all));
    assert_eq!(all.len(), 13);
}

#[test]
fn route_types_belong_to_modes() {
    assert_eq!(map_extended_route_type(103), MotCategory::Rail);
    assert_eq!(map_extended_route_type(204), MotCategory::Coach);
    assert_eq!(map_extended_route_type(401), MotCategory::Subway);
    assert_eq!(map_route_type_to_category(RouteType::Other(704)), MotCategory::Bus);
    assert_eq!(map_route_type_to_category(RouteType::Funicular), MotCategory::Funicular);
    assert!(is_bus_like_route_type(RouteType::Bus));
    assert!(is_bus_like_route_type(RouteType::Coach));
    assert!(!is_bus_like_route_type(RouteType::Rail));
    assert!(is_bus_like(MotCategory::Bus));
    assert!(!is_bus_like(MotCategory::Ferry));
}

#[test]
fn patterns_are_divided_among_networks() {
    let types = vec![
        Some(RouteType::Rail),
        Some(RouteType::Bus),
        Some(RouteType::Tramway),
        None,
        Some(RouteType::Subway),
        Some(RouteType::Rail),
    ];
    let (bus, other) = partition_patterns(&types);
    assert_eq!(bus, vec![1]);
    assert_eq!(other, vec![0, 2, 3, 4, 5]);
    assert_eq!(profile_key(Some(RouteType::Ferry)), ProfileKey::Ferry);
    assert_eq!(profile_key(Some(RouteType::CableCar)), ProfileKey::Gondola);
    assert_eq!(patterns_of_network(&types, ProfileKey::TramSubway), vec![2, 4]);
    let networks = group_by_network(&types);
    let mut all: Vec<usize> = networks.iter().flat_map(|n| n.1.iter().copied()).collect();
    all.sort();
    // Each pattern is served by one network.
    assert_eq!(all, vec![0, 1, 2, 3, 4, 5]);
    assert!(networks.iter().any(|n| n.0 == ProfileKey::Rail && n.1 == vec![0, 5]));
}

#[test]
fn the_bounds_of_patterns_are_half_a_degree_wider() {
    let b = patterns_bbox(&vec![
        Point { x: 10_000_000, y: -20_000_000 },
        Point { x: -30_000_000, y: 40_000_000 },
    ])
    .unwrap();
    assert_eq!((b.min_x, b.max_x), (-35_000_000, 15_000_000));
    assert_eq!((b.min_y, b.max_y), (-25_000_000, 45_000_000));
    assert!(patterns_bbox(&vec![]).is_none());
}

#[test]
fn shapes_that_share_a_name_are_numbered() {
    assert_eq!(to_decimal(0), "0");
    assert_eq!(to_decimal(u64::MAX), "18446744073709551615");
    assert_eq!(shape_id_for_hash(42), "shape_42");
    let ids = deduplicate_shape_ids(&strings(&["a", "b", "a", "a"]));
    assert_eq!(ids, strings(&["a", "b", "a_1", "a_2"]));
    // A name that is already taken is not looked for.
    assert_eq!(deduplicate_shape_ids(&strings(&["a", "a", "a_1"])), strings(&["a", "a_1", "a_1"]));
}

#[test]
fn columns_are_replaced_or_added() {
    let headers = strings(&["route_id", "trip_id", "shape_id"]);
    assert_eq!(find_column(&headers, "shape_id"), Some(2));
    assert_eq!(find_column(&headers, "color"), None);
    assert_eq!(with_column(&headers, "shape_id"), headers);
    assert_eq!(with_column(&headers, "x").len(), 4);
    let record = strings(&["r", "t", "old"]);
    assert_eq!(rewrite_trip(&record, Some(2), Some("new")), strings(&["r", "t", "new"]));
    assert_eq!(rewrite_trip(&record, Some(2), None), record);
    let short = strings(&["r", "t"]);
    assert_eq!(rewrite_trip(&short, None, Some("new")), strings(&["r", "t", "new"]));
    assert_eq!(rewrite_trip(&short, None, None), strings(&["r", "t", ""]));
    let route = strings(&["r", "FFF"]);
    assert_eq!(
        rewrite_route(&route, Some(1), None, Some("00FF00"), Some("000000")),
        strings(&["r", "00FF00", "000000"])
    );
}

#[test]
fn old_shapes_stay_unless_they_are_replaced() {
    let mut allowed: AHashSet<usize> = AHashSet::new();
    allowed.insert(MotCategory::Bus.number());
    let mut replaced = no_shapes();
    note_replaced_shape(&mut replaced, false, RouteType::Bus, &allowed, &Some("s1".to_string()));
    note_replaced_shape(&mut replaced, false, RouteType::Rail, &allowed, &Some("s2".to_string()));
    note_replaced_shape(&mut replaced, false, RouteType::Bus, &allowed, &Some(String::new()));
    note_replaced_shape(&mut replaced, true, RouteType::Bus, &allowed, &Some("s3".to_string()));
    let mut new_ids = no_shapes();
    note_new_shape(&mut new_ids, "n1", false);
    note_new_shape(&mut new_ids, "n2", true);
    assert!(!keeps_shape("s1", &replaced, &new_ids));
    assert!(keeps_shape("s2", &replaced, &new_ids));
    assert!(keeps_shape("s3", &replaced, &new_ids));
    assert!(!keeps_shape("n1", &replaced, &new_ids));
    assert!(keeps_shape("n2", &replaced, &new_ids));
}

#[test]
fn names_get_their_last_positions() {
    let positions = positions_of(&strings(&["a", "b", "a"]));
    assert_eq!(positions.len(), 2);
    assert_eq!(positions["a"], 2);
    assert_eq!(positions["b"], 1);
    let rows = vec![
        StopTimeRow { trip_id: "b".to_string(), stop_sequence: 4, stop: Some(9) },
        StopTimeRow { trip_id: "c".to_string(), stop_sequence: 1, stop: Some(3) },
    ];
    let trips = positions_of(&strings(&["c", "b"]));
    let times = faster_stop_time_reader_injection(rows, &trips, 2);
    assert_eq!(times[0], vec![StopTime { stop_sequence: 1, stop: 3 }]);
    assert_eq!(times[1], vec![StopTime { stop_sequence: 4, stop: 9 }]);
}

#[test]
fn patterns_that_differ_get_shapes_of_different_names() {
    let ids = strings(&["s1", "s2"]);
    let bus = shape_id_for_pattern(&ids, Some(RouteType::Bus));
    assert!(bus["shape_".len()..].parse::<u64>().is_ok());
    assert_eq!(bus, shape_id_for_pattern(&strings(&["s1", "s2"]), Some(RouteType::Bus)));
    assert_ne!(bus, shape_id_for_pattern(&ids, Some(RouteType::Rail)));
    assert_ne!(bus, shape_id_for_pattern(&ids, None));
    assert_ne!(bus, shape_id_for_pattern(&strings(&["s2", "s1"]), Some(RouteType::Bus)));
}

#[test]
fn trips_get_the_shapes_of_their_patterns() {
    let trip = |stops: &[usize]| TripStops {
        route_type: Some(RouteType::Bus),
        times: stops.iter().map(|&stop| StopTime { stop_sequence: 0, stop }).collect(),
    };
    let groups = group_patterns(&vec![trip(&[1, 2]), trip(&[3]), trip(&[1, 2]), trip(&[4])]);
    let ids = strings(&["a", "b", "c", "d"]);
    let shapes = vec![Some("s1".to_string()), None, Some("s3".to_string())];
    let told = shapes_of_trips(&ids, &groups, &shapes);
    assert_eq!(told.len(), 3);
    assert_eq!((told["a"].as_str(), told["c"].as_str(), told["d"].as_str()), ("s1", "s1", "s3"));
    assert!(!told.contains_key("b"));
}

#[test]
fn the_first_pattern_with_a_colour_colours_its_route() {
    let route = |s: &str| Some(s.to_string());
    let routes = vec![route("r"), route("r"), None, route("r"), route("q"), route("p")];
    let colors = first_colors(&routes, &vec![false, true, true, true, true, false]);
    assert_eq!(colors.len(), 2);
    assert_eq!((colors["r"], colors["q"]), (1, 4));
}

#[test]
fn old_shapes_are_read_unless_all_are_wiped() {
    assert!(reads_old_shapes(true, false, true) && reads_old_shapes(true, true, false));
    assert!(!reads_old_shapes(true, true, true) && !reads_old_shapes(false, false, false));
}
