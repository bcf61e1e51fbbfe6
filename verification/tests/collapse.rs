use pfaedle::collapse::{
    apply_one_way_penalty, collapse_edges, write_other_direction_edges, NODE_FLAG_STATION,
};
use pfaedle::components::write_components;
use pfaedle::geometry::Point;
use pfaedle::graph::{EdgePL, Graph, NodePL, TransitInfo, MODE_BUS};

fn node(graph: &mut Graph<NodePL, EdgePL>, x: i32) -> usize {
    graph.add_node(NodePL { comp_id: 0, point: Point { x: x * 10_000_000, y: 0 } })
}

fn edge(graph: &mut Graph<NodePL, EdgePL>, a: usize, b: usize) {
    let mut payload = EdgePL::new();
    payload.allowed_modes = MODE_BUS;
    payload.geometry = vec![graph.nodes[a].payload.point, graph.nodes[b].payload.point];
    payload.cost = 10;
    graph.add_edge(a, b, payload);
}

#[test]
fn collapses_equivalent_degree_two_chain_before_reverse_edges() {
    let mut graph = Graph::new();
    let a = node(&mut graph, 0);
    let b = node(&mut graph, 1);
    let c = node(&mut graph, 2);
    edge(&mut graph, a, b);
    edge(&mut graph, b, c);
    let mut flags = vec![0; 3];

    collapse_edges(&mut graph, &mut flags);
    write_components(&mut graph);
    write_other_direction_edges(&mut graph);
    apply_one_way_penalty(&mut graph, 5, 300);

    assert_eq!(graph.nodes.len(), 2);
    assert_eq!(graph.edges.len(), 2);
    assert_eq!(graph.edges[0].payload.geometry.len(), 3);
    assert_eq!(graph.edges[0].payload.cost, 20);
    assert!(graph.edges[1].payload.is_reverse);
}

#[test]
fn station_and_line_boundaries_are_not_collapsed() {
    let mut graph = Graph::new();
    graph.transit_lines = vec![
        TransitInfo { short_name: "A".into(), from_str: String::new(), to_str: String::new() },
        TransitInfo { short_name: "B".into(), from_str: String::new(), to_str: String::new() },
    ];
    let a = node(&mut graph, 0);
    let b = node(&mut graph, 1);
    let c = node(&mut graph, 2);
    edge(&mut graph, a, b);
    edge(&mut graph, b, c);
    graph.edges[0].payload.lines = vec![0];
    graph.edges[1].payload.lines = vec![1];
    let mut flags = vec![0; 3];

    collapse_edges(&mut graph, &mut flags);
    assert_eq!(graph.nodes.len(), 3);
    assert_eq!(graph.edges.len(), 2);

    let mut station_graph = Graph::new();
    let a = node(&mut station_graph, 0);
    let b = node(&mut station_graph, 1);
    let c = node(&mut station_graph, 2);
    edge(&mut station_graph, a, b);
    edge(&mut station_graph, b, c);
    let mut station_flags = vec![0, NODE_FLAG_STATION, 0];
    collapse_edges(&mut station_graph, &mut station_flags);
    assert_eq!(station_graph.nodes.len(), 3);
}

#[test]
fn edges_against_their_direction_are_penalised() {
    let mut graph = Graph::new();
    let a = node(&mut graph, 0);
    let b = node(&mut graph, 1);
    edge(&mut graph, a, b);
    graph.edges[0].payload.oneway = 1;
    write_other_direction_edges(&mut graph);
    assert_eq!(graph.edges[1].payload.oneway, 2);
    apply_one_way_penalty(&mut graph, 5, 300);
    assert_eq!(graph.edges[0].payload.cost, 10);
    // Five times the cost, and five minutes in tenths of a second.
    assert_eq!(graph.edges[1].payload.cost, 3_050);
    write_other_direction_edges(&mut graph);
    assert_eq!(graph.edges.len(), 2);
}

#[test]
fn nodes_have_the_same_number_if_they_are_connected() {
    let mut graph = Graph::new();
    let a = node(&mut graph, 0);
    let b = node(&mut graph, 1);
    let c = node(&mut graph, 2);
    let d = node(&mut graph, 3);
    edge(&mut graph, a, b);
    edge(&mut graph, c, b);
    write_components(&mut graph);
    let comp = |n: usize| graph.nodes[n].payload.comp_id;
    assert_eq!(comp(a), comp(b));
    assert_eq!(comp(b), comp(c));
    assert_ne!(comp(a), comp(d));
}

#[test]
fn collapsing_keeps_the_costs_of_all_edges_together() {
    let mut graph = Graph::new();
    let n: Vec<usize> = (0..6).map(|x| node(&mut graph, x)).collect();
    for (k, (a, b)) in [(0, 1), (1, 2), (2, 3), (2, 4), (4, 5)].into_iter().enumerate() {
        edge(&mut graph, n[a], n[b]);
        graph.edges[k].payload.cost = 3 + 5 * k as u32;
    }
    let total = |graph: &Graph<NodePL, EdgePL>| -> u64 {
        graph.edges.iter().map(|e| e.payload.cost as u64).sum()
    };
    let before = total(&graph);
    collapse_edges(&mut graph, &mut vec![0; 6]);
    assert!(graph.edges.len() < 5);
    assert_eq!(before, 65);
    assert_eq!(total(&graph), before);
    // The edges that begin or end at a node are listed in order.
    for list in graph.nodes.iter().flat_map(|nd| [&nd.out_edges, &nd.in_edges]) {
        assert!(list.windows(2).all(|w| w[0] < w[1]));
    }
}

#[test]
fn costs_that_add_up_to_the_largest_number_are_kept() {
    let merge = |first: u32, second: u32| {
        let mut graph = Graph::new();
        let n: Vec<usize> = (0..3).map(|x| node(&mut graph, x)).collect();
        edge(&mut graph, n[0], n[1]);
        edge(&mut graph, n[1], n[2]);
        graph.edges[0].payload.cost = first;
        graph.edges[1].payload.cost = second;
        collapse_edges(&mut graph, &mut vec![0; 3]);
        assert_eq!(graph.edges.len(), 1);
        graph.edges[0].payload.cost
    };
    assert_eq!(merge(u32::MAX - 5, 5), u32::MAX);
    // One more cannot be counted.
    assert_eq!(merge(u32::MAX - 5, 6), u32::MAX);
}
