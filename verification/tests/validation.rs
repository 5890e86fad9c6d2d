use fleet_challenge::graph::Graph;
use fleet_challenge::models::{Edge, Layout, Node, Position, COORDINATE_SCALE, MAX_COORDINATE};
use fleet_challenge::validation::{validate_layout, validate_rules, ValidationError};

fn coordinate(value: f64) -> i64 {
    let scaled = (value * COORDINATE_SCALE as f64).round();
    if scaled.is_finite() && scaled.abs() <= MAX_COORDINATE as f64 {
        scaled as i64
    } else {
        i64::MAX
    }
}

fn node(id: &str, x: f64, y: f64) -> Node {
    Node {
        id: id.into(),
        position: Position {
            x: coordinate(x),
            y: coordinate(y),
        },
    }
}

fn edge(id: &str, source: &str, sink: &str) -> Edge {
    Edge {
        id: id.into(),
        source: source.into(),
        sink: sink.into(),
    }
}

fn valid_layout() -> Layout {
    Layout {
        id: "Valid_map".into(),
        nodes: vec![
            node("Node_BL", 0.0, 0.0),
            node("Node_BC", 18.0, 0.0),
            node("Node_BR", 25.0, 0.0),
            node("Node_TC", 10.0, 10.0),
            node("Node_TR", 25.0, 10.0),
            node("Node_TL", 0.0, 10.0),
        ],
        edges: vec![
            edge("BL_2_BC", "Node_BL", "Node_BC"),
            edge("BC_2_BR", "Node_BC", "Node_BR"),
            edge("BR_2_TR", "Node_BR", "Node_TR"),
            edge("TR_2_TC", "Node_TR", "Node_TC"),
            edge("BC_2_TR", "Node_BC", "Node_TR"),
            edge("BC_2_TC", "Node_BC", "Node_TC"),
            edge("TC_2_TL", "Node_TC", "Node_TL"),
            edge("TL_2_BL", "Node_TL", "Node_BL"),
            edge("TR_2_BC", "Node_TR", "Node_BC"),
        ],
    }
}

fn pairs(errors: &[ValidationError]) -> Vec<(String, String)> {
    errors
        .iter()
        .map(|e| (e.rule.clone(), e.message.clone()))
        .collect()
}

#[test]
fn accepts_the_provided_valid_map() {
    let result = validate_layout(&valid_layout());
    assert!(result.is_ok(), "errors: {:?}", result.err());
}

#[test]
fn rejects_edge_to_unknown_node() {
    let mut layout = valid_layout();
    layout
        .edges
        .push(edge("BC_2_GHOST", "Node_BC", "Node_GHOST"));
    let result = validate_layout(&layout);
    let errors = result.unwrap_err();
    assert!(errors
        .iter()
        .any(|e| e.rule == "edge_references_existing_node"));
}

#[test]
fn rejects_edge_missing_endpoint() {
    let mut layout = valid_layout();
    layout.edges.push(edge("dangling", "Node_BC", ""));
    let result = validate_layout(&layout);
    let errors = result.unwrap_err();
    assert!(errors.iter().any(|e| e.rule == "edge_endpoints_present"));
}

#[test]
fn rejects_node_with_fewer_than_two_edges() {
    let mut layout = valid_layout();
    layout.nodes.push(node("Node_ISOLATED", 5.0, 5.0));
    layout
        .edges
        .push(edge("BC_2_ISOLATED", "Node_BC", "Node_ISOLATED"));
    let result = validate_layout(&layout);
    let errors = result.unwrap_err();
    assert!(errors.iter().any(|e| e.rule == "min_two_edges"));
}

#[test]
fn rejects_layout_that_is_not_strongly_connected() {
    // Add an extra node only reachable *from* the graph, nothing points back to it.
    let mut layout = valid_layout();
    layout.nodes.push(node("Node_DEADEND", 30.0, 30.0));
    layout
        .edges
        .push(edge("TR_2_DEADEND", "Node_TR", "Node_DEADEND"));
    layout
        .edges
        .push(edge("TC_2_DEADEND", "Node_TC", "Node_DEADEND"));
    let result = validate_layout(&layout);
    let errors = result.unwrap_err();
    assert!(errors.iter().any(|e| e.rule == "strongly_connected"));
}

#[test]
fn rejects_duplicate_node_ids() {
    let mut layout = valid_layout();
    layout.nodes.push(node("Node_BL", 1.0, 1.0));
    let result = validate_layout(&layout);
    let errors = result.unwrap_err();
    assert!(errors.iter().any(|e| e.rule == "unique_node_id"));
}

#[test]
fn rejects_duplicate_edge_ids() {
    let mut layout = valid_layout();
    layout.edges.push(edge("BL_2_BC", "Node_BC", "Node_BR"));
    let errors = validate_layout(&layout).unwrap_err();
    assert!(errors.iter().any(|e| e.rule == "unique_edge_id"));
}

#[test]
fn rejects_self_loops() {
    let mut layout = valid_layout();
    layout.edges.push(edge("self_loop", "Node_BC", "Node_BC"));
    let errors = validate_layout(&layout).unwrap_err();
    assert!(errors.iter().any(|e| e.rule == "edge_no_self_loop"));
}

#[test]
fn rejects_non_finite_node_positions() {
    let mut layout = valid_layout();
    layout.nodes[0].position.x = coordinate(f64::NAN);
    let errors = validate_layout(&layout).unwrap_err();
    assert!(errors.iter().any(|e| e.rule == "finite_node_position"));
}

#[test]
fn reports_multiple_independent_violations() {
    let mut layout = valid_layout();
    layout.nodes.push(node("Node_BL", 1.0, 1.0));
    layout.edges.push(edge("duplicate", "Node_BC", ""));
    layout
        .edges
        .push(edge("duplicate", "Node_BC", "Node_GHOST"));
    let errors = validate_layout(&layout).unwrap_err();
    assert!(errors.iter().any(|e| e.rule == "unique_node_id"));
    assert!(errors.iter().any(|e| e.rule == "unique_edge_id"));
    assert!(errors.iter().any(|e| e.rule == "edge_endpoints_present"));
    assert!(errors
        .iter()
        .any(|e| e.rule == "edge_references_existing_node"));
}

#[test]
fn validate_rules_accepts_the_valid_map() {
    assert!(validate_rules(&valid_layout()).is_ok());
}

#[test]
fn violation_messages_follow_rule_order() {
    let mut layout = valid_layout();
    layout.nodes.push(node("Node_BL", 1.0, 1.0));
    layout.edges.push(edge("duplicate", "Node_BC", ""));
    layout
        .edges
        .push(edge("duplicate", "Node_BC", "Node_GHOST"));
    let errors = validate_rules(&layout).unwrap_err();
    assert_eq!(
        pairs(&errors),
        vec![
            (
                "unique_node_id".to_string(),
                "Duplicate node id 'Node_BL'".to_string()
            ),
            (
                "unique_edge_id".to_string(),
                "Duplicate edge id 'duplicate'".to_string()
            ),
            (
                "edge_endpoints_present".to_string(),
                "Edge 'duplicate' is not connected on both ends (source or sink missing)"
                    .to_string()
            ),
            (
                "edge_references_existing_node".to_string(),
                "Edge 'duplicate' references unknown sink node ''".to_string()
            ),
            (
                "edge_references_existing_node".to_string(),
                "Edge 'duplicate' references unknown sink node 'Node_GHOST'".to_string()
            ),
        ]
    );
}

#[test]
fn whitespace_endpoint_counts_as_missing() {
    let mut layout = valid_layout();
    layout.edges.push(edge("blank", " \t\u{3000}", "Node_BC"));
    let errors = validate_rules(&layout).unwrap_err();
    assert!(errors.iter().any(|e| e.rule == "edge_endpoints_present"));
    assert!(!errors.iter().any(|e| e.rule == "strongly_connected"));
}

#[test]
fn degree_message_counts_both_directions() {
    let mut layout = valid_layout();
    layout.nodes.push(node("Node_ISOLATED", 5.0, 5.0));
    layout
        .edges
        .push(edge("BC_2_ISOLATED", "Node_BC", "Node_ISOLATED"));
    let errors = validate_rules(&layout).unwrap_err();
    assert!(pairs(&errors).contains(&(
        "min_two_edges".to_string(),
        "Node 'Node_ISOLATED' only has 1 connected edge(s), at least 2 are required".to_string()
    )));
}

#[test]
fn self_loop_counts_twice_for_degree() {
    let mut layout = valid_layout();
    layout.nodes.push(node("Node_LOOP", 5.0, 5.0));
    layout.edges.push(edge("LOOP", "Node_LOOP", "Node_LOOP"));
    let errors = validate_rules(&layout).unwrap_err();
    assert!(!errors.iter().any(|e| e.rule == "min_two_edges"));
    assert!(errors.iter().any(|e| e.rule == "edge_no_self_loop"));
}

#[test]
fn connectivity_messages_list_sorted_ids() {
    let mut layout = valid_layout();
    layout.nodes.push(node("Node_Z", 30.0, 30.0));
    layout.nodes.push(node("Node_A", 31.0, 30.0));
    layout.edges.push(edge("TR_2_Z", "Node_TR", "Node_Z"));
    layout.edges.push(edge("Z_2_A", "Node_Z", "Node_A"));
    layout.edges.push(edge("A_2_Z", "Node_A", "Node_Z"));
    let errors = validate_rules(&layout).unwrap_err();
    assert_eq!(
        pairs(&errors),
        vec![(
            "strongly_connected".to_string(),
            "Node(s) [Node_A, Node_Z] cannot reach node 'Node_BL'".to_string()
        )]
    );
}

#[test]
fn unreachable_nodes_are_reported_from_the_first_node() {
    let mut layout = valid_layout();
    layout.nodes.push(node("Node_SRC", 30.0, 30.0));
    layout.edges.push(edge("SRC_2_TR", "Node_SRC", "Node_TR"));
    layout.edges.push(edge("SRC_2_BR", "Node_SRC", "Node_BR"));
    let errors = validate_rules(&layout).unwrap_err();
    assert_eq!(
        pairs(&errors),
        vec![(
            "strongly_connected".to_string(),
            "Node(s) [Node_SRC] are not reachable from node 'Node_BL'".to_string()
        )]
    );
}

#[test]
fn out_of_range_position_is_rejected() {
    let mut layout = valid_layout();
    layout.nodes[1].position.y = MAX_COORDINATE + 1;
    let errors = validate_rules(&layout).unwrap_err();
    assert_eq!(
        pairs(&errors),
        vec![(
            "finite_node_position".to_string(),
            "Node 'Node_BC' has a non-finite position".to_string()
        )]
    );
}

#[test]
fn empty_layout_is_accepted() {
    let layout = Layout {
        id: "empty".into(),
        nodes: Vec::new(),
        edges: Vec::new(),
    };
    assert!(validate_rules(&layout).is_ok());
}

#[test]
fn graph_keeps_nodes_and_edges_in_layout_order() {
    let graph = Graph::from_layout(&valid_layout());
    assert_eq!(graph.node_count(), 6);
    assert_eq!(graph.node_index("Node_TR"), Some(4));
    assert_eq!(graph.node_index("Node_GHOST"), None);
    assert_eq!(graph.node_id(2), "Node_BR");
    assert_eq!(graph.outgoing_edges(1), &[1, 4, 5]);
    let e = graph.edge(8);
    assert_eq!(e.id, "TR_2_BC");
    assert_eq!((e.source, e.sink), (4, 1));
    // sqrt(7^2 + 10^2) = 12.2065556157337...
    assert_eq!(e.weight, 12_206_555_615_733);
}

#[test]
fn violations_count_one_per_offending_item() {
    let mut layout = valid_layout();
    layout.nodes.push(node("Node_BL", 5.0, 5.0));
    layout.edges.push(edge("BL_2_BC", "Ghost_A", "Ghost_B"));
    layout.edges.push(edge("Loop", "Node_TC", "Node_TC"));
    layout.edges.push(edge("Half", "Node_TC", " "));
    let errors = validate_rules(&layout).unwrap_err();
    let count = |rule: &str| errors.iter().filter(|e| e.rule == rule).count();
    assert_eq!(count("finite_node_position"), 0);
    assert_eq!(count("unique_node_id"), 1);
    assert_eq!(count("unique_edge_id"), 1);
    assert_eq!(count("edge_endpoints_present"), 1);
    // both ends of the ghost edge and the blank end of the half edge name no node
    assert_eq!(count("edge_references_existing_node"), 3);
    assert_eq!(count("edge_no_self_loop"), 1);
    assert_eq!(count("min_two_edges"), 0);
    // a dangling edge suppresses the connectivity check
    assert_eq!(count("strongly_connected"), 0);
}

#[test]
fn node_lookup_finds_every_id_and_the_last_of_repeated_ones() {
    let layout = Layout {
        id: "lookup".into(),
        nodes: vec![
            node("m", 0.0, 0.0),
            node("b", 1.0, 0.0),
            node("z", 2.0, 0.0),
            node("b", 3.0, 0.0),
            node("a", 4.0, 0.0),
        ],
        edges: vec![],
    };
    let graph = Graph::from_layout(&layout);
    assert_eq!(graph.node_index("m"), Some(0));
    assert_eq!(graph.node_index("b"), Some(3));
    assert_eq!(graph.node_index("z"), Some(2));
    assert_eq!(graph.node_index("a"), Some(4));
    assert_eq!(graph.node_index(""), None);
    assert_eq!(graph.node_index("c"), None);
    assert_eq!(graph.node_index("zz"), None);
}
