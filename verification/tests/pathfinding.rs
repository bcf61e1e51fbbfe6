use pfaedle::geometry::{BBox, Point};
use pfaedle::graph::{EdgePL, Graph, NodePL, TransitInfo, MODE_BUS, MODE_RAIL};
use pfaedle::multi_target::multi_target_dijkstra;
use pfaedle::pathfinding::{
    pathfind, pathfind_cost_with_context, pathfind_with_context, retained_in, PathfinderContext,
};
use pfaedle::search::TransitMatch;

fn point(x: f64, y: f64) -> Point {
    Point { x: (x * 1e7).round() as i32, y: (y * 1e7).round() as i32 }
}

fn cosine(p: Point) -> u32 {
    ((p.y as f64 / 1e7).to_radians().cos() * 1e9).round() as u32
}

fn node(graph: &mut Graph<NodePL, EdgePL>, x: f64, y: f64) -> usize {
    graph.add_node(NodePL { comp_id: 0, point: point(x, y) })
}

fn edge(modes: u8, cost: u32, lines: Vec<u32>) -> EdgePL {
    let mut e = EdgePL::new();
    e.allowed_modes = modes;
    e.cost = cost;
    e.lines = lines;
    e
}

fn line(name: &str) -> TransitInfo {
    TransitInfo { short_name: name.into(), from_str: String::new(), to_str: String::new() }
}

fn find(
    graph: &Graph<NodePL, EdgePL>,
    a: usize,
    b: usize,
    modes: u8,
    preferred: Option<&TransitMatch>,
) -> Option<(u128, Vec<usize>)> {
    let cos = |n: usize| cosine(graph.node(n).payload.point);
    pathfind(graph, a, b, modes, 0, None, preferred, cos(a), cos(b))
}

#[test]
fn test_pathfind_modes() {
    let mut graph = Graph::new();
    let n0 = node(&mut graph, 0.0, 0.0);
    let n1 = node(&mut graph, 1.0, 0.0);

    // Edge 0: Rail only
    graph.add_edge(n0, n1, edge(MODE_RAIL, 10, vec![]));
    // Edge 1: Bus only
    graph.add_edge(n0, n1, edge(MODE_BUS, 10, vec![]));

    // Test Rail
    let path_rail = find(&graph, n0, n1, MODE_RAIL, None);
    assert!(path_rail.is_some());
    let (_, edges) = path_rail.unwrap();
    assert_eq!(edges.len(), 1);
    assert_eq!(graph.edge(edges[0]).payload.allowed_modes, MODE_RAIL);

    // Test Bus
    let path_bus = find(&graph, n0, n1, MODE_BUS, None);
    assert!(path_bus.is_some());
    let (_, edges) = path_bus.unwrap();
    assert_eq!(edges.len(), 1);
    assert_eq!(graph.edge(edges[0]).payload.allowed_modes, MODE_BUS);

    // Test None
    let path_none = find(&graph, n0, n1, 0, None);
    assert!(path_none.is_none());
}

#[test]
fn test_pathfind_penalties() {
    let mut graph = Graph::new();
    let n0 = node(&mut graph, 0.0, 0.0);
    let n1 = node(&mut graph, 0.0, 0.1);

    // Edge 0: Short but HIGH COST (e.g. industrial)
    let idx_ind = graph.add_edge(n0, n1, edge(MODE_RAIL, 1_000_000, vec![]));

    // A detour via n2: Long but LOW COST (normal rail)
    let n2 = node(&mut graph, 0.1, 0.05);
    let idx_norm1 = graph.add_edge(n0, n2, edge(MODE_RAIL, 1000, vec![]));
    let idx_norm2 = graph.add_edge(n2, n1, edge(MODE_RAIL, 1000, vec![]));

    let (_, path) = find(&graph, n0, n1, MODE_RAIL, None).expect("Should find path");

    // Should choose the detour (2 edges) because total cost 2000 < 1,000,000
    assert_eq!(path.len(), 2);
    assert_eq!(path[0], idx_norm1);
    assert_eq!(path[1], idx_norm2);

    // Ensure it didn't take the direct industrial route
    assert!(!path.contains(&idx_ind));
}

#[test]
fn test_pathfind_preference_by_short_name() {
    let mut graph = Graph::new();
    graph.transit_lines = vec![line("L1"), line("L2")];
    let n0 = node(&mut graph, 0.0, 0.0);
    let n1 = node(&mut graph, 0.0, 0.1);
    let n2 = node(&mut graph, 0.1, 0.05);

    let idx_wrong = graph.add_edge(n0, n1, edge(MODE_RAIL, 12000, vec![0]));
    let idx_right1 = graph.add_edge(n0, n2, edge(MODE_RAIL, 7000, vec![1]));
    let idx_right2 = graph.add_edge(n2, n1, edge(MODE_RAIL, 7000, vec![1]));

    let match_pref =
        TransitMatch { short_name: Some("l2".to_string()), long_name: None, operator: None };

    let (_, path) =
        find(&graph, n0, n1, MODE_RAIL, Some(&match_pref)).expect("Should find path");
    assert_eq!(path, vec![idx_right1, idx_right2]);
    assert!(!path.contains(&idx_wrong));
}

#[test]
fn test_pathfind_preference_by_long_name() {
    let mut graph = Graph::new();
    graph.transit_lines = vec![line("Blue"), line("Red")];
    let n0 = node(&mut graph, 0.0, 0.0);
    let n1 = node(&mut graph, 0.0, 0.1);
    let n2 = node(&mut graph, 0.1, 0.05);

    let idx_other = graph.add_edge(n0, n1, edge(MODE_RAIL, 12000, vec![0]));
    let idx_red1 = graph.add_edge(n0, n2, edge(MODE_RAIL, 7000, vec![1]));
    let idx_red2 = graph.add_edge(n2, n1, edge(MODE_RAIL, 7000, vec![1]));

    let match_pref =
        TransitMatch { short_name: None, long_name: Some("red line".to_string()), operator: None };

    let (_, path) =
        find(&graph, n0, n1, MODE_RAIL, Some(&match_pref)).expect("Should find path");
    assert_eq!(path, vec![idx_red1, idx_red2]);
    assert!(!path.contains(&idx_other));

    let mut ctx = PathfinderContext::new();
    let cost = pathfind_cost_with_context(
        &mut ctx,
        &graph,
        n0,
        n1,
        MODE_RAIL,
        0,
        None,
        Some(&match_pref),
        None,
        cosine(graph.node(n0).payload.point),
        cosine(graph.node(n1).payload.point),
    )
    .expect("Should find path cost");
    // Costs are counted in fifths.
    assert_eq!(cost as f64 / 5.0, 2800.0);
}

#[test]
fn fallback_modes_cost_ten_times_as_much() {
    let mut graph = Graph::new();
    let n0 = node(&mut graph, 0.0, 0.0);
    let n1 = node(&mut graph, 0.001, 0.0);
    graph.add_edge(n0, n1, edge(MODE_BUS, 10, vec![]));
    let r = pathfind(&graph, n0, n1, MODE_RAIL, MODE_BUS, None, None, 1_000_000_000, 1_000_000_000);
    assert_eq!(r, Some((500, vec![0])));
}

#[test]
fn the_way_from_a_node_to_itself_is_empty() {
    let mut graph = Graph::new();
    let n0 = node(&mut graph, 0.0, 0.0);
    assert_eq!(find(&graph, n0, n0, MODE_RAIL, None), Some((0, vec![])));
}

#[test]
fn a_context_can_be_used_again() {
    let mut graph = Graph::new();
    let n0 = node(&mut graph, 0.0, 0.0);
    let n1 = node(&mut graph, 0.001, 0.0);
    let n2 = node(&mut graph, 0.002, 0.0);
    graph.add_edge(n0, n1, edge(MODE_BUS, 10, vec![]));
    graph.add_edge(n1, n2, edge(MODE_BUS, 20, vec![]));
    let mut ctx = PathfinderContext::new();
    let c = 1_000_000_000;
    for _ in 0..3 {
        let r = pathfind_with_context(
            &mut ctx, &graph, n0, n2, MODE_BUS, 0, None, None, None, c, c,
        );
        assert_eq!(r, Some((150, vec![0, 1])));
        let r = pathfind_with_context(
            &mut ctx, &graph, n2, n0, MODE_BUS, 0, None, None, None, c, c,
        );
        assert_eq!(r, None);
    }
    ctx.discard_if_oversized(0);
    assert_eq!(ctx.retained_entries(), 0);
}

#[test]
fn a_box_keeps_the_search_inside() {
    let mut graph = Graph::new();
    let n0 = node(&mut graph, 0.0, 0.0);
    let n1 = node(&mut graph, 0.0, 1.0);
    let n2 = node(&mut graph, 0.1, 0.0);
    graph.add_edge(n0, n1, edge(MODE_BUS, 1, vec![]));
    graph.add_edge(n1, n2, edge(MODE_BUS, 1, vec![]));
    let bounds = BBox { min_x: -10_000_000, min_y: -1_000_000, max_x: 10_000_000, max_y: 1_000_000 };
    let mut ctx = PathfinderContext::new();
    let c = 1_000_000_000;
    let cost = |ctx: &mut PathfinderContext, b: Option<BBox>| {
        pathfind_cost_with_context(ctx, &graph, n0, n2, MODE_BUS, 0, None, None, b, c, c)
    };
    assert_eq!(cost(&mut ctx, None), Some(10));
    assert_eq!(cost(&mut ctx, Some(bounds)), None);
}

#[test]
fn several_targets_get_their_cheapest_starts() {
    let mut graph = Graph::new();
    let n0 = node(&mut graph, 0.0, 0.0);
    let n1 = node(&mut graph, 0.001, 0.0);
    let n2 = node(&mut graph, 0.002, 0.0);
    let n3 = node(&mut graph, 0.003, 0.0);
    graph.add_edge(n0, n2, edge(MODE_BUS, 10, vec![]));
    graph.add_edge(n1, n2, edge(MODE_BUS, 3, vec![]));
    graph.add_edge(n0, n3, edge(MODE_BUS, 4, vec![]));
    let starts = vec![(n0, 0u128), (n1, 10u128)];
    let found = multi_target_dijkstra(
        &graph,
        &starts,
        &[n2, n3],
        MODE_BUS,
        0,
        None,
        None,
        None,
        1_000,
    );
    assert_eq!(found.len(), 2);
    assert_eq!((found[&n2].g, found[&n2].origin), (25, n1));
    assert_eq!((found[&n3].g, found[&n3].origin), (20, n0));
    let near = multi_target_dijkstra(&graph, &starts, &[n2, n3], MODE_BUS, 0, None, None, None, 21);
    assert!(!near.contains_key(&n2));
    assert!(near.contains_key(&n3));
}

#[test]
fn a_search_for_the_cost_alone_agrees_whatever_the_context_holds() {
    let mut graph = Graph::new();
    let mut nodes = Vec::new();
    for i in 0..30 {
        nodes.push(node(&mut graph, (i % 6) as f64 * 0.001, (i / 6) as f64 * 0.001));
    }
    for i in 0..30 {
        if i % 6 < 5 {
            graph.add_edge(nodes[i], nodes[i + 1], edge(MODE_BUS, 50 + (i * 7 % 11) as u32, vec![]));
        }
        if i + 6 < 30 {
            graph.add_edge(nodes[i], nodes[i + 6], edge(MODE_BUS, 50 + (i * 5 % 13) as u32, vec![]));
        }
    }
    let mut ctx = PathfinderContext::new();
    let c = 1_000_000_000;
    for &a in &nodes {
        for &b in &nodes {
            let fresh = pathfind(&graph, a, b, MODE_BUS, 0, None, None, c, c);
            let used = pathfind_with_context(
                &mut ctx, &graph, a, b, MODE_BUS, 0, None, None, None, c, c,
            );
            let cost = pathfind_cost_with_context(
                &mut ctx, &graph, a, b, MODE_BUS, 0, None, None, None, c, c,
            );
            assert_eq!(fresh, used);
            assert_eq!(cost, fresh.map(|(cost, _)| cost));
        }
    }
}

#[test]
fn the_cost_of_going_nowhere_is_nothing() {
    let mut graph = Graph::new();
    let n0 = node(&mut graph, 0.0, 5.0);
    let mut ctx = PathfinderContext::new();
    let away = BBox { min_x: 0, min_y: 0, max_x: 1, max_y: 1 };
    let c = 1_000_000_000;
    let r = pathfind_cost_with_context(
        &mut ctx, &graph, n0, n0, MODE_BUS, 0, None, None, Some(away), c, c,
    );
    assert_eq!(r, Some(0));
}

#[test]
fn labels_count_twice_among_what_is_retained() {
    assert_eq!(retained_in(1, 2, 3, 4), 17);
    assert_eq!(retained_in(0, 0, 0, 0), 0);
    assert_eq!(retained_in(usize::MAX, 0, 1, 0), usize::MAX);
    assert_eq!(retained_in(0, 0, usize::MAX / 2 + 1, 0), usize::MAX);
}
