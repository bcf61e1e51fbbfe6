use pfaedle::geometry::Point;
use pfaedle::graph::{EdgePL, Graph, NodePL};
use pfaedle::router::edge_search::search_from;
use pfaedle::text::line_simi;

#[test]
fn line_similarity_is_token_aware() {
    assert!(line_simi("Red Line", "Red"));
    assert!(line_simi("RE 3", "RE3"));
    assert!(line_simi("re3", "RE 3"));
    assert!(!line_simi("62", "162"));
    assert!(!line_simi("RE3", "RE55"));
    assert!(!line_simi("---", "___"));
}

#[test]
fn searches_from_the_same_starts_agree_on_costs() {
    let mut graph = Graph::new();
    let nodes: Vec<usize> = (0..5)
        .map(|i| graph.add_node(NodePL { comp_id: 0, point: Point { x: i, y: 0 } }))
        .collect();
    let mut edge = |from: usize, to: usize, cost: u32| {
        let mut e = EdgePL::new();
        e.cost = cost;
        graph.add_edge(nodes[from], nodes[to], e);
    };
    edge(0, 1, 10);
    edge(1, 2, 20);
    edge(2, 3, 30);
    edge(4, 1, 5);
    let a = search_from(&graph, &[(0, 7), (3, 7)], 1_000);
    let b = search_from(&graph, &[(3, 7), (0, 7)], 1_000);
    for edge in 0..4usize {
        assert_eq!(a.get(&edge).map(|l| l.g), b.get(&edge).map(|l| l.g));
    }
    assert_eq!(a[&0].g, 7);
    assert_eq!(a[&1].g, 27);
    assert_eq!(a[&2].g, 57);
    // Beyond the limit the search does not go on.
    assert!(!search_from(&graph, &[(0, 7)], 20).contains_key(&2));
}
