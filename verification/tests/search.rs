use geo::{HaversineDistance, Point as GeoPoint};
use pfaedle::geometry::{distance_on_plane, isqrt, Point};
use pfaedle::graph::TransitInfo;
use pfaedle::heap::{MinHeap, QueueItem};
use pfaedle::router::hop_cache::HopCache;
use pfaedle::router::trip_trie::{build_trie, TrieStop, TrieTrip, TripTrie};
use pfaedle::router::weights::{ExpoTransWeight, RoutingAttrs, RoutingOpts, TransWeight};
use pfaedle::search::TransitMatch;
use pfaedle::text::{
    chars_of, contains_ignore_case, contains_str, eq_ignore_ascii_case, parse_i32, split_trimmed, str_eq,
};

#[test]
fn the_cheapest_item_leaves_the_queue_first() {
    let mut heap = MinHeap::new();
    for cost in [5u128, 1, 4, 1, 3] {
        heap.push(QueueItem { cost, g: cost, node: cost as usize, origin: 0 });
    }
    assert_eq!(heap.len(), 5);
    assert_eq!(heap.peek().unwrap().cost, 1);
    let mut costs = Vec::new();
    while let Some(item) = heap.pop() {
        costs.push(item.cost);
    }
    assert_eq!(costs, vec![1, 1, 3, 4, 5]);
    assert!(heap.is_empty());
}

#[test]
fn roots_and_distances_are_rounded_down() {
    assert_eq!(isqrt(0), 0);
    assert_eq!(isqrt(99), 9);
    assert_eq!(isqrt(100), 10);
    assert_eq!(isqrt(u128::MAX), u64::MAX);
    let a = Point { x: 0, y: 0 };
    let b = Point { x: 30, y: 40 };
    // A cosine of one is a thousand million, and so is a unit of the distance.
    assert_eq!(distance_on_plane(a, b, 1_000_000_000), 50_000_000_000);
    assert_eq!(distance_on_plane(a, b, 0), 40_000_000_000);
}

#[test]
fn the_cache_tells_bounds_from_costs() {
    let mut cache = HopCache::new();
    assert_eq!(cache.get(1, 2), (0, false));
    cache.set_min(1, 2, 7);
    assert_eq!(cache.get(1, 2), (7, false));
    cache.set_ex(1, 2, 9);
    assert_eq!(cache.get(1, 2), (9, true));
    cache.set_min_set(3, &[4, 5], 6);
    assert_eq!((cache.get(3, 4), cache.get(3, 5)), ((6, false), (6, false)));
    cache.set_min_from_set(&[6, 7], 8, 2);
    assert_eq!(cache.get(7, 8), (2, false));
}

#[test]
fn text_is_compared_and_cut() {
    assert!(str_eq("a\u{e9}", "a\u{e9}") && !str_eq("a", "b"));
    assert_eq!(chars_of("a\u{e9}b"), vec!['a', '\u{e9}', 'b']);
    assert!(contains_ignore_case("Red LINE", "line"));
    assert!(!contains_ignore_case("Red", "line"));
    assert!(eq_ignore_ascii_case("ABC", "abc") && !eq_ignore_ascii_case("AB", "abc"));
    assert_eq!(split_trimmed(" a, b ,,c", ','), vec!["a", "b", "", "c"]);
    assert_eq!(parse_i32("-2147483648"), Some(i32::MIN));
    assert_eq!(parse_i32("2147483647"), Some(i32::MAX));
    assert_eq!(parse_i32("2147483648"), None);
    assert_eq!(parse_i32("-"), None);
    assert_eq!(parse_i32(""), None);
    assert_eq!(parse_i32("+7"), Some(7));
    assert_eq!(parse_i32("7 "), None);
}

#[test]
fn names_match_if_one_is_part_of_the_other() {
    let m = TransitMatch {
        short_name: Some("re1".to_string()),
        long_name: Some("red line".to_string()),
        operator: None,
    };
    assert!(m.matches_line(&"RE1 Berlin".to_string()));
    assert!(m.matches_line(&"Red".to_string()));
    assert!(!m.matches_line(&"Blue".to_string()));
}

/// Places on the equator.
const PLACES: [i32; 8] =
    [0, 900_000, 1_800_000, 5_000_000, 1_800_000_000, -1_800_000_000, -1_799_999_990, -1_799_999_900];

/// How far two places are apart on the globe, in nanometres.
fn nanometres(a: i32, b: i32) -> u64 {
    let at = |x: i32| GeoPoint::new(x as f64 / 1e7, 0.0);
    (at(a).haversine_distance(&at(b)) * 1e9) as u64
}

fn stop(name: &str, x: i32, arrival: u32, departure: u32) -> TrieStop {
    TrieStop {
        name: name.to_string(),
        platform: String::new(),
        pos: Point { x, y: 0 },
        place: PLACES.iter().position(|&p| p == x).unwrap(),
        distances_nm: PLACES.iter().map(|&p| nanometres(x, p)).collect(),
        arrival: Some(arrival),
        departure: Some(departure),
    }
}

fn trip(id: &str, stops: Vec<TrieStop>) -> TrieTrip {
    TrieTrip { id: id.to_string(), stop_times: stops }
}

#[test]
fn trips_with_the_same_stops_share_their_nodes() {
    let mut trie = TripTrie::new();
    let attrs = RoutingAttrs::default();
    let a = trip("a", vec![stop("A", 0, 0, 0), stop("B", 900_000, 100, 110), stop("C", 1_800_000, 200, 200)]);
    let b = trip("b", vec![stop("A", 0, 50, 50), stop("B", 900_000, 170, 180), stop("C", 1_800_000, 260, 260)]);
    assert!(trie.add_trip(&a, &attrs, false, false));
    assert_eq!(trie.get_nds().len(), 5);
    assert!(trie.add_trip(&b, &attrs, false, false));
    assert_eq!(trie.get_nds().len(), 5);
    assert_eq!(trie.get_nd(1).trips, 2);
    // Times are counted from the first departure of each trip.
    assert_eq!(trie.get_nd(2).acc_time, 100 + 120);
    assert_eq!(trie.get_nd_trips().len(), 1);
    let leaf = trie.get(&b, false).unwrap();
    assert_eq!(trie.get_nd_trips()[&leaf], vec!["a".to_string(), "b".to_string()]);
    let c = trip("c", vec![stop("A", 0, 0, 0), stop("D", 5_000_000, 9, 9)]);
    assert_eq!(trie.get(&c, false), None);
    trie.add_trip(&c, &attrs, false, false);
    assert_eq!(trie.get_nds().len(), 6);
    assert_eq!(trie.get_nd_trips().len(), 2);
}

#[test]
fn lines_that_are_not_known_count_as_alike() {
    let attrs = RoutingAttrs {
        short_name: "RE 3".to_string(),
        line_from: String::new(),
        line_to: "Ulm".to_string(),
    };
    let info = |a: &str, b: &str, c: &str| TransitInfo {
        short_name: a.to_string(),
        from_str: b.to_string(),
        to_str: c.to_string(),
    };
    let s = attrs.simi(&info("RE3", "x", "ULM"));
    assert!(s.name_similar && s.from_similar && s.to_similar);
    assert_eq!(s.score(), 3);
    let s = attrs.simi(&info("RE55", "x", "Aalen"));
    assert_eq!((s.name_similar, s.from_similar, s.to_similar), (false, true, false));
    assert_eq!(attrs.simi(&info("", "", "")).score(), 3);
    let mut merged = RoutingAttrs::default();
    merged.merge(&attrs);
    assert_eq!(merged.short_name, "RE 3");
}

#[test]
fn a_way_is_looked_for_as_long_as_the_timetable_suggests() {
    let opts = RoutingOpts::default();
    // At least three minutes, in tenths of a second.
    assert_eq!(ExpoTransWeight::max_cost(0, &opts), 1_800);
    assert_eq!(ExpoTransWeight::max_cost(100_000_000_000, &opts), 3_000);
    // What is left of a second counts: 85 2/3 seconds come to a little more than 3562 tenths.
    let opts = RoutingOpts {
        line_unmatched_punish_fact: 110,
        line_name_to_unmatched_punish_fact: 120,
        line_name_from_unmatched_punish_fact: 105,
        ..opts
    };
    assert_eq!(ExpoTransWeight::max_cost(85_666_666_666, &opts), 3_563);
    assert_eq!(ExpoTransWeight::max_cost(u128::MAX, &opts), u32::MAX);
}

#[test]
fn a_string_is_found_in_another() {
    assert!(contains_str("Stra\u{df}e 12", "\u{df}e"));
    assert!(contains_str("abc", ""));
    assert!(contains_str("", ""));
    assert!(contains_str("aab", "ab"));
    assert!(!contains_str("abc", "abcd"));
    assert!(!contains_str("abc", "C"));
}

#[test]
fn of_equally_cheap_items_the_one_reached_at_less_cost_leaves_first() {
    let mut heap = MinHeap::new();
    for (g, node) in [(3u128, 7usize), (2, 9), (3, 4), (2, 1)] {
        heap.push(QueueItem { cost: 5, g, node, origin: 0 });
    }
    let mut order = Vec::new();
    while let Some(x) = heap.pop() {
        order.push((x.g, x.node));
    }
    assert_eq!(order, vec![(2, 1), (2, 9), (3, 4), (3, 7)]);
}

#[test]
fn stops_on_both_sides_of_the_date_line_are_the_same() {
    let mut trie = TripTrie::new();
    let attrs = RoutingAttrs::default();
    let east = trip("a", vec![stop("A", 1_800_000_000, 0, 0), stop("B", 0, 60, 60)]);
    let west = trip("b", vec![stop("A", -1_800_000_000, 0, 0), stop("B", 0, 60, 60)]);
    assert!(trie.add_trip(&east, &attrs, false, false));
    assert!(trie.add_trip(&west, &attrs, false, true));
    assert_eq!(trie.get(&east, false), trie.get(&west, false));
    // A millionth of a degree more is a tenth of a metre, ten are more than one.
    let near = trip("c", vec![stop("A", -1_799_999_990, 0, 0), stop("B", 0, 60, 60)]);
    let far = trip("d", vec![stop("A", -1_799_999_900, 0, 0), stop("B", 0, 60, 60)]);
    assert!(trie.get(&near, false).is_some());
    assert!(trie.get(&far, false).is_none());
}

#[test]
fn a_metre_is_too_far_and_a_nanometre_less_is_not() {
    let at = |distance: u64, id: &str| {
        let mut a = stop("A", 0, 0, 0);
        a.place = 1;
        a.distances_nm = vec![distance, 0, 5_000_000_000];
        let mut b = stop("B", 900_000, 60, 60);
        b.place = 2;
        b.distances_nm = vec![5_000_000_000, 5_000_000_000, 0];
        trip(id, vec![a, b])
    };
    let mut trie = TripTrie::new();
    let mut first = at(0, "a");
    first.stop_times[0].place = 0;
    assert!(trie.add_trip(&first, &RoutingAttrs::default(), false, false));
    assert!(trie.get(&at(999_999_999, "b"), false).is_some());
    assert!(trie.get(&at(1_000_000_000, "c"), false).is_none());
}

#[test]
fn the_trips_of_a_pattern_are_counted_at_the_nodes_they_share() {
    let attrs = RoutingAttrs { short_name: "7".to_string(), ..RoutingAttrs::default() };
    let trips = vec![
        trip("a", vec![stop("A", 0, 0, 0), stop("B", 900_000, 100, 110), stop("C", 1_800_000, 200, 200)]),
        trip("b", vec![stop("A", 0, 50, 50), stop("B", 900_000, 170, 180), stop("C", 1_800_000, 260, 260)]),
        // Begins elsewhere, so it is left out.
        trip("c", vec![stop("D", 0, 0, 0), stop("B", 900_000, 100, 110)]),
        // Leaves the way of the others after the second stop.
        trip("d", vec![stop("A", 0, 0, 0), stop("B", 900_000, 90, 90), stop("D", 1_800_000, 200, 200)]),
    ];
    let trie = build_trie(&trips, &attrs);
    assert_eq!(trie.get_nds().len(), 6);
    let counts: Vec<(u64, i128)> = trie.get_nds().iter().map(|n| (n.trips, n.acc_time)).collect();
    assert_eq!(
        counts,
        vec![(0, 0), (3, 0), (3, 100 + 120 + 90), (3, 110 + 130 + 90), (2, 200 + 210), (1, 200)]
    );
    assert_eq!(trie.get_nd(1).r_attrs.short_name, "7");
    assert_eq!(trie.get(&trips[0], false), Some(4));
    assert_eq!(trie.get(&trips[1], false), Some(4));
    assert_eq!(trie.get(&trips[2], false), None);
    assert_eq!(trie.get(&trips[3], false), Some(5));
    let root = trie.get_nd(0);
    assert_eq!((root.stop_name.as_str(), root.parent, root.arr), ("ROOT", None, false));
    assert_eq!(build_trie(&vec![], &attrs).get_nds().len(), 1);
}
