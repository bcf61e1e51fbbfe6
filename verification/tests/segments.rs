use pfaedle::geometry::Point;
use pfaedle::graph::{EdgePL, Graph, NodePL, MODE_BUS};
use pfaedle::pathfinding::PathfinderContext;
use pfaedle::segment_matcher::{
    find_window_exit, is_walked, match_route, pathfind_in_tiles, rebuild_spatial_tree,
    SegmentResult, SegmentWalk, WalkState,
};
use pfaedle::tile::TileCoord;

fn point(x: f64, y: f64) -> Point {
    Point { x: (x * 1e7).round() as i32, y: (y * 1e7).round() as i32 }
}

#[test]
fn test_segment_result_structure() {
    let segment = SegmentResult {
        geometry: vec![point(-122.4, 37.8), point(-122.35, 37.85)],
        cost: 500, // 100.0 in fifths
    };
    assert_eq!(segment.geometry.len(), 2);
}

fn street() -> Graph<NodePL, EdgePL> {
    let mut graph = Graph::new();
    let mut last = None;
    for i in 0..4 {
        let p = point(i as f64 * 0.01, 0.0);
        let n = graph.add_node(NodePL { comp_id: 0, point: p });
        if let Some(m) = last {
            let mut e = EdgePL::new();
            e.allowed_modes = MODE_BUS;
            e.cost = 10;
            e.geometry = vec![point((i - 1) as f64 * 0.01, 0.0), p];
            graph.add_edge(m, n, e);
        }
        last = Some(n);
    }
    graph
}

#[test]
fn the_way_between_two_points_starts_near_the_first() {
    let graph = street();
    let tree = rebuild_spatial_tree(&graph);
    let cosines = vec![1_000_000_000; 4];
    let mut ctx = PathfinderContext::new();
    // All pairs of the few nodes are tried; the nearest ones come first, and the first of the cheapest wins.
    let r = pathfind_in_tiles(
        &mut ctx,
        &graph,
        &tree,
        point(0.001, 0.001),
        point(0.031, 0.0),
        None,
        &cosines,
    )
    .unwrap();
    assert_eq!(r.geometry.len(), 2);
    assert_eq!(r.cost, 50);
    let empty: Graph<NodePL, EdgePL> = Graph::new();
    let tree = rebuild_spatial_tree(&empty);
    let none =
        pathfind_in_tiles(&mut ctx, &empty, &tree, point(0.0, 0.0), point(1.0, 0.0), None, &vec![]);
    assert!(none.is_none());
}

#[test]
fn a_window_is_left_at_the_node_nearest_to_three_quarters_of_the_way() {
    let graph = street();
    let tree = rebuild_spatial_tree(&graph);
    let exit = find_window_exit(&graph, &tree, point(0.0, 0.0), point(0.028, 0.0));
    assert_eq!(exit, Some(point(0.02, 0.0)));
    let empty: Graph<NodePL, EdgePL> = Graph::new();
    let tree = rebuild_spatial_tree(&empty);
    assert_eq!(find_window_exit(&empty, &tree, point(0.0, 0.0), point(1.0, 0.0)), None);
}

fn tiles(n: i32) -> Vec<TileCoord> {
    (0..n).map(|x| TileCoord { x, y: 0 }).collect()
}

#[test]
fn a_corridor_is_walked_window_by_window() {
    assert!(!is_walked(&tiles(8)));
    assert!(is_walked(&tiles(9)));
    let graph = street();
    let tree = rebuild_spatial_tree(&graph);
    let (a, b, c) = (point(0.0, 0.0), point(0.5, 0.0), point(1.0, 0.0));
    let mut walk = SegmentWalk::new(tiles(4), a, c);
    assert_eq!(walk.window(), tiles(3));
    assert_ne!(walk.next_target(&graph, &tree), Some(c));
    let first = SegmentResult { geometry: vec![a, b], cost: 7 };
    assert_eq!(walk.advance(Some(first)), WalkState::Going);
    assert_eq!(walk.current, b);
    // The next window begins with the last tile of the one before.
    assert_eq!(walk.window(), tiles(4)[2..].to_vec());
    assert_eq!(walk.next_target(&graph, &tree), Some(c));
    assert_eq!(walk.advance(None), WalkState::Stuck);
    let second = SegmentResult { geometry: vec![b, c], cost: 5 };
    assert_eq!(walk.advance(Some(second)), WalkState::Done);
    let r = walk.finish();
    assert_eq!(r.geometry, vec![a, b, c]);
    assert_eq!(r.cost, 12);
}

#[test]
fn hops_without_a_way_become_straight_lines() {
    let (a, b, c) = (point(0.0, 0.0), point(0.5, 0.0), point(1.0, 0.0));
    let m = point(0.2, 0.1);
    let segments = vec![Some(SegmentResult { geometry: vec![a, m, b], cost: 1 }), None];
    assert_eq!(match_route(&vec![a, b, c], &segments), Some(vec![a, m, b, c]));
    assert_eq!(match_route(&vec![a], &vec![]), None);
}
