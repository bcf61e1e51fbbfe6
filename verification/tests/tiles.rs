use ahash::AHashSet;
use pfaedle::geometry::Point;
use pfaedle::osm::{OsmNode, Way};
use pfaedle::tags::Tags;
use pfaedle::tile::{
    compute_corridor_tiles, finish_tile, get_for_segment, load_tile, merge_tiles, TileCache,
    TileCoord, TileData,
};
use pfaedle::tile_loader::{compute_route_tiles, cross_neighbors};

fn point(x: f64, y: f64) -> Point {
    Point { x: (x * 1e7).round() as i32, y: (y * 1e7).round() as i32 }
}

#[test]
fn test_tile_coord_from_point() {
    let t = TileCoord::from_point(point(-122.4, 37.8));
    assert_eq!(t.x, -245);
    assert_eq!(t.y, 75);
}

#[test]
fn test_tile_coord_same_tile() {
    let t1 = TileCoord::from_point(point(-122.4, 37.8));
    let t2 = TileCoord::from_point(point(-122.35, 37.85));
    assert_eq!(t1, t2);
}

#[test]
fn test_corridor_tiles_same() {
    let p1 = point(-122.4, 37.8);
    let p2 = point(-122.35, 37.85);
    let corridor = compute_corridor_tiles(p1, p2);
    assert_eq!(corridor.len(), 5); // Self + 4 neighbors
}

#[test]
fn test_corridor_tiles_distant() {
    let p1 = point(-122.0, 37.0);
    let p2 = point(-120.0, 39.0); // ~200km apart
    let corridor = compute_corridor_tiles(p1, p2);
    assert!(corridor.len() > 10);
    assert!(corridor.contains(&TileCoord::from_point(p1)));
    assert!(corridor.contains(&TileCoord::from_point(p2)));
}

#[test]
fn route_tiles_are_stable_and_deduplicated() {
    let stops = vec![point(-122.4, 37.8), point(-122.35, 37.85)];
    let tiles = compute_route_tiles(&stops);
    let unique: AHashSet<_> = tiles.iter().copied().collect();
    assert_eq!(tiles.len(), unique.len());
    assert!(!tiles.is_empty());
}

#[test]
fn a_lone_stop_needs_the_block_around_it() {
    let p = point(10.05, 50.05);
    let tiles = compute_route_tiles(&vec![p]);
    assert_eq!(tiles.len(), 9);
    let t = pfaedle::tile_loader::TileCoord::from_point(p);
    assert_eq!((t.x, t.y), (50, 250));
    assert_eq!(tiles[0], t);
    assert_eq!(cross_neighbors(t).len(), 5);
    assert!(compute_route_tiles(&vec![]).is_empty());
}

#[test]
fn tiles_of_negative_coordinates_are_counted_downwards() {
    let t = pfaedle::tile_loader::TileCoord::from_point(Point { x: -1, y: -2_000_000 });
    assert_eq!((t.x, t.y), (-1, -1));
}

#[test]
fn the_bounds_of_a_tile_are_wider_than_the_tile() {
    let t = TileCoord { x: -245, y: 75 };
    let b = t.bbox();
    assert_eq!(b.min_x, -1_225_020_000);
    assert_eq!(b.max_x, -1_219_980_000);
    assert_eq!(b.min_y, 374_980_000);
    assert_eq!(b.max_y, 380_020_000);
    assert!(b.contains(point(-122.4, 37.8)));
    assert_eq!(t.with_neighbors().len(), 9);
}

#[test]
fn a_hop_needs_blocks_or_a_corridor() {
    let a = point(0.1, 0.1);
    assert_eq!(get_for_segment(a, point(0.2, 0.2)).len(), 9);
    // Two tiles side by side: their blocks share six tiles.
    let beside = get_for_segment(a, point(0.6, 0.1));
    assert_eq!(beside.len(), 12);
    let columns: Vec<(i32, i32)> = beside.iter().map(|t| (t.x, t.y)).collect();
    let mut expected = Vec::new();
    for x in -1..=2 {
        for y in -1..=1 {
            expected.push((x, y));
        }
    }
    assert_eq!(columns, expected);
    let far = get_for_segment(a, point(3.1, 0.1));
    assert_eq!(far, compute_corridor_tiles(a, point(3.1, 0.1)));
}

#[test]
fn the_cache_forgets_what_was_not_used_for_longest() {
    let t = |x: i32| TileCoord { x, y: 0 };
    let mut cache = TileCache::new(2);
    assert_eq!(cache.put(t(1), 10), None);
    assert_eq!(cache.put(t(2), 20), None);
    assert_eq!(cache.len(), 2);
    assert_eq!(cache.get(t(1)), Some(10));
    assert_eq!(cache.put(t(3), 30), Some(((2, 0), 20)));
    assert_eq!(cache.get(t(2)), None);
    assert_eq!(cache.put(t(1), 11), Some(((1, 0), 10)));
    assert_eq!(cache.get(t(1)), Some(11));
    assert_eq!(cache.len(), 2);
}

fn node(id: i64, x: f64, y: f64) -> OsmNode {
    OsmNode { id, point: point(x, y), tags: Tags::new() }
}

fn way(id: i64, nodes: Vec<i64>, tags: &[(&str, &str)]) -> Way {
    let mut t = Tags::new();
    for &(key, value) in tags {
        t.insert(key.into(), value.into());
    }
    Way { id, nodes, tags: t }
}

#[test]
fn a_tile_is_built_from_nodes_and_ways() {
    let nodes = vec![node(1, 0.0, 0.0), node(2, 0.1, 0.0), node(3, 0.2, 0.0)];
    let ways = vec![
        way(10, vec![1, 99, 2, 3], &[("highway", "primary")]),
        way(11, vec![3, 1], &[("oneway", "1"), ("railway", "rail")]),
        way(12, vec![1, 98], &[]),
    ];
    let mut tile = load_tile(&nodes, &ways, &vec![0, -1, 5]);
    assert_eq!(tile.graph.nodes.len(), 3);
    assert_eq!(tile.graph.edges.len(), 3);
    assert_eq!(tile.osm_node_to_graph_idx.get(&2), Some(&1));
    assert_eq!((tile.graph.edges[0].from, tile.graph.edges[0].to), (0, 1));
    assert_eq!(tile.graph.edges[0].payload.allowed_modes, 8);
    assert_eq!(tile.graph.edges[2].payload.allowed_modes, 9);
    assert_eq!(tile.graph.edges[2].payload.oneway, 1);
    assert_eq!(tile.graph.edges[2].payload.level, -1);
    finish_tile(&mut tile, &vec![12_345, 20, u64::MAX]);
    // Both edges of the first way get a twin, the one-way track does not.
    assert_eq!(tile.graph.edges.len(), 5);
    assert_eq!(tile.graph.edges[0].payload.cost, 1_234);
    assert_eq!(tile.graph.edges[1].payload.cost, 2);
    assert_eq!(tile.graph.edges[2].payload.cost, u32::MAX);
    assert_eq!((tile.graph.edges[3].from, tile.graph.edges[3].to), (1, 0));
    assert_eq!(tile.graph.edges[3].payload.geometry, vec![point(0.1, 0.0), point(0.0, 0.0)]);
}

#[test]
fn tiles_are_joined_where_their_nodes_coincide() {
    let a = load_tile(
        &vec![node(1, 0.0, 0.0), node(2, 0.1, 0.0)],
        &vec![way(10, vec![1, 2], &[])],
        &vec![0],
    );
    // The shared node differs by less than a millionth of a degree.
    let mut shared = node(2, 0.1, 0.0);
    shared.point.x += 3;
    let b = load_tile(&vec![shared, node(3, 0.2, 0.0)], &vec![way(11, vec![2, 3], &[])], &vec![0]);
    let merged = merge_tiles(&vec![a, TileData::new(), b]);
    assert_eq!(merged.nodes.len(), 3);
    assert_eq!(merged.edges.len(), 2);
    assert_eq!((merged.edges[1].from, merged.edges[1].to), (1, 2));
}

#[test]
fn a_corridor_holds_both_its_ends_and_nothing_twice() {
    for (p1, p2) in [
        (point(0.1, 0.1), point(3.4, -1.2)),
        (point(-0.1, -0.1), point(-0.2, -0.2)),
        (point(2.0, 2.0), point(2.0, 0.4)),
    ] {
        let corridor = compute_corridor_tiles(p1, p2);
        assert!(corridor.contains(&TileCoord::from_point(p1)));
        assert!(corridor.contains(&TileCoord::from_point(p2)));
        for (i, t) in corridor.iter().enumerate() {
            assert!(!corridor[..i].contains(t));
        }
    }
}
