use pfaedle::edge_attrs::{add_line, NamedLine};
use pfaedle::geometry::Point;
use pfaedle::graph::{EdgePL, Graph, NodePL, TransitInfo, TransitInfoInterner, MODE_BUS, MODE_RAIL};

#[test]
fn graph_test_edge_pl_defaults() {
    let e = EdgePL::new();
    assert_eq!(e.oneway, 0);
    assert!(!e.restriction);
    assert_eq!(e.cost, 0);
    assert_eq!(e.allowed_modes, 0);
    assert_eq!(e.preferred_direction, 0);
}

#[test]
fn trgraph_test_edge_pl_defaults() {
    let e = EdgePL::new();
    assert_eq!(e.oneway, 0);
    assert!(!e.restriction);
    assert_eq!(e.cost, 0);
    assert_eq!(e.allowed_modes, 0);
    assert_eq!(e.preferred_direction, 0);
}

#[test]
fn graph_test_rev_copy() {
    let mut e = EdgePL::new();
    e.oneway = 1;

    let rev = e.rev_copy();
    assert!(rev.is_reverse);
    assert_eq!(rev.oneway, 2);
}

#[test]
fn trgraph_test_rev_copy() {
    let mut e = EdgePL::new();
    e.oneway = 1;

    let rev = e.rev_copy();
    assert!(rev.is_reverse);
    assert_eq!(rev.oneway, 2);
}

#[test]
fn rev_copy_swaps_both_ways_and_keeps_the_rest() {
    let mut e = EdgePL::new();
    e.oneway = 2;
    e.cost = 17;
    e.geometry = vec![Point { x: 1, y: 2 }, Point { x: 3, y: 4 }];
    let rev = e.rev_copy();
    assert_eq!(rev.oneway, 1);
    assert_eq!(rev.cost, 17);
    assert_eq!(rev.geometry, e.geometry);
    e.oneway = 0;
    assert_eq!(e.rev_copy().oneway, 0);
}

#[test]
fn test_transit_lines_sorted() {
    let mut lines: Vec<NamedLine> = Vec::new();
    let t1 = NamedLine {
        short_name: "B".into(),
        from_str: "".into(),
        to_str: "".into(),
        operator: None,
    };
    let t2 = NamedLine {
        short_name: "A".into(),
        from_str: "".into(),
        to_str: "".into(),
        operator: Some("OpA".into()),
    };

    add_line(&mut lines, t1.clone());
    add_line(&mut lines, t2.clone());
    add_line(&mut lines, t1.clone()); // Duplicate

    assert_eq!(lines.len(), 2);
    assert_eq!(lines[0], t2);
    assert_eq!(lines[1], t1);
}

#[test]
fn a_line_without_operator_stands_before_one_with_an_operator() {
    let line = |operator: Option<&str>| NamedLine {
        short_name: "A".into(),
        from_str: "x".into(),
        to_str: "y".into(),
        operator: operator.map(|o| o.to_string()),
    };
    let mut lines = Vec::new();
    add_line(&mut lines, line(Some("b")));
    add_line(&mut lines, line(None));
    add_line(&mut lines, line(Some("a")));
    assert_eq!(lines, vec![line(None), line(Some("a")), line(Some("b"))]);
}

#[test]
fn test_transit_lines_are_interned_and_edge_ids_are_unique() {
    let mut interner = TransitInfoInterner::new();
    let a = interner.intern(TransitInfo {
        short_name: "A".into(),
        from_str: "".into(),
        to_str: "".into(),
    });
    let a_again = interner.intern(TransitInfo {
        short_name: "A".into(),
        from_str: "".into(),
        to_str: "".into(),
    });
    let b = interner.intern(TransitInfo {
        short_name: "B".into(),
        from_str: "".into(),
        to_str: "".into(),
    });

    assert_eq!(a, a_again);
    assert_ne!(a, b);
    assert_eq!(interner.infos().len(), 2);

    let mut edge = EdgePL::new();
    edge.add_line_id(b);
    edge.add_line_id(a);
    edge.add_line_id(a_again);
    assert_eq!(edge.lines, vec![a, b]);
}

#[test]
fn hops_next_to_the_ends_follow_the_direction_of_use() {
    let mut e = EdgePL::new();
    e.geometry = vec![Point { x: 0, y: 0 }, Point { x: 1, y: 0 }, Point { x: 2, y: 0 }, Point { x: 3, y: 0 }];
    assert_eq!(e.front_hop(), Point { x: 1, y: 0 });
    assert_eq!(e.back_hop(), Point { x: 2, y: 0 });
    let r = e.rev_copy();
    assert_eq!(r.front_hop(), Point { x: 2, y: 0 });
    assert_eq!(r.back_hop(), Point { x: 1, y: 0 });
}

#[test]
fn adjacency_lists_follow_the_edges() {
    let mut graph: Graph<NodePL, EdgePL> = Graph::new();
    let a = graph.add_node(NodePL { comp_id: 0, point: Point { x: 0, y: 0 } });
    let b = graph.add_node(NodePL { comp_id: 0, point: Point { x: 5, y: 0 } });
    let e = graph.add_edge(a, b, EdgePL::new());
    assert_eq!(graph.node(a).out_edges, vec![e]);
    assert_eq!(graph.node(b).in_edges, vec![e]);
    assert_eq!(graph.edge(e).from, a);
    assert_eq!(graph.edge(e).to, b);
    assert!(graph.transit_info(0).is_none());
}

#[test]
fn attributes_of_an_edge_are_told_in_words() {
    let mut e = EdgePL::new();
    e.oneway = 1;
    e.cost = 36;
    e.level = -2;
    e.restriction = true;
    e.allowed_modes = MODE_RAIL | MODE_BUS;
    e.osmid = -17;
    e.lines = vec![1, 0, 7];
    let lines = vec![
        TransitInfo { short_name: "A".into(), from_str: "x".into(), to_str: "".into() },
        TransitInfo { short_name: "B".into(), from_str: "".into(), to_str: "".into() },
    ];
    let attrs = e.get_attrs(&lines, "12.5");
    let value = |key: &str| attrs.get(key).map(|s| s.as_str());
    assert_eq!(attrs.len(), 9);
    assert_eq!(value("m_length"), Some("12.5"));
    assert_eq!(value("oneway"), Some("1"));
    assert_eq!(value("cost"), Some("3.6"));
    assert_eq!(value("level"), Some("-2"));
    assert_eq!(value("restriction"), Some("yes"));
    assert_eq!(value("allowed_modes"), Some("9"));
    assert_eq!(value("osmid"), Some("-17"));
    assert_eq!(value("preferred_direction"), Some("0"));
    assert_eq!(value("lines"), Some("B,A(x->)"));
    e.cost = 40;
    e.osmid = i64::MIN;
    let attrs = e.get_attrs(&lines, "0");
    assert_eq!(attrs["cost"], "4");
    assert_eq!(attrs["osmid"], "-9223372036854775808");
}
