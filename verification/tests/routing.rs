use fleet_challenge::graph::{euclidean_weight, isqrt, Graph, WEIGHT_SCALE};
use fleet_challenge::models::{Edge, Layout, Node, Position, COORDINATE_SCALE, MAX_COORDINATE};
use fleet_challenge::routing::{plan_route, RouteError};
use fleet_challenge::validation::validate_layout;

fn coordinate(value: f64) -> i64 {
    let scaled = (value * COORDINATE_SCALE as f64).round();
    if scaled.is_finite() && scaled.abs() <= MAX_COORDINATE as f64 {
        scaled as i64
    } else {
        i64::MAX
    }
}

fn length(distance: u128) -> f64 {
    distance as f64 / (COORDINATE_SCALE as f64 * WEIGHT_SCALE as f64)
}

fn node(id: &str, x: f64, y: f64) -> Node {
    Node {
        id: id.into(),
        position: Position {
            x: coordinate(x),
            y: coordinate(y),
        },
    }
}

fn edge(id: &str, source: &str, sink: &str) -> Edge {
    Edge {
        id: id.into(),
        source: source.into(),
        sink: sink.into(),
    }
}

fn valid_graph() -> Graph {
    validate_layout(&valid_layout()).expect("test layout should be valid")
}

fn valid_layout() -> Layout {
    Layout {
        id: "Valid_map".into(),
        nodes: vec![
            node("Node_BL", 0.0, 0.0),
            node("Node_BC", 18.0, 0.0),
            node("Node_BR", 25.0, 0.0),
            node("Node_TC", 10.0, 10.0),
            node("Node_TR", 25.0, 10.0),
            node("Node_TL", 0.0, 10.0),
        ],
        edges: vec![
            edge("BL_2_BC", "Node_BL", "Node_BC"),
            edge("BC_2_BR", "Node_BC", "Node_BR"),
            edge("BR_2_TR", "Node_BR", "Node_TR"),
            edge("TR_2_TC", "Node_TR", "Node_TC"),
            edge("BC_2_TR", "Node_BC", "Node_TR"),
            edge("BC_2_TC", "Node_BC", "Node_TC"),
            edge("TC_2_TL", "Node_TC", "Node_TL"),
            edge("TL_2_BL", "Node_TL", "Node_BL"),
            edge("TR_2_BC", "Node_TR", "Node_BC"),
        ],
    }
}

#[test]
fn finds_direct_edge() {
    let result = plan_route(&valid_graph(), "Node_BL", "Node_BC").unwrap();
    assert_eq!(result.nodes, vec!["Node_BL", "Node_BC"]);
    assert_eq!(result.edges, vec!["BL_2_BC"]);
    assert!((length(result.distance) - 18.0).abs() < 1e-9);
}

#[test]
fn finds_shortest_multi_hop_route() {
    // Node_BR -> Node_TR -> Node_BC is shorter than going all the way around.
    let result = plan_route(&valid_graph(), "Node_BR", "Node_BC").unwrap();
    assert_eq!(result.nodes, vec!["Node_BR", "Node_TR", "Node_BC"]);
    assert_eq!(result.edges, vec!["BR_2_TR", "TR_2_BC"]);
    assert!((length(result.distance) - 22.206555615733702).abs() < 1e-9);
}

#[test]
fn same_start_and_goal_is_trivial_route() {
    let result = plan_route(&valid_graph(), "Node_BC", "Node_BC").unwrap();
    assert_eq!(result.nodes, vec!["Node_BC"]);
    assert!(result.edges.is_empty());
    assert_eq!(length(result.distance), 0.0);
}

#[test]
fn unknown_start_is_rejected() {
    let err = plan_route(&valid_graph(), "Node_GHOST", "Node_BC").unwrap_err();
    assert!(matches!(err, RouteError::UnknownStart(_)));
}

#[test]
fn unknown_goal_is_rejected() {
    let err = plan_route(&valid_graph(), "Node_BC", "Node_GHOST").unwrap_err();
    assert!(matches!(err, RouteError::UnknownGoal(_)));
}

#[test]
fn no_route_when_unreachable() {
    let mut layout = valid_layout();
    layout.nodes.push(node("Node_ISOLATED", 50.0, 50.0));
    layout
        .edges
        .push(edge("ISOLATED_LOOP", "Node_ISOLATED", "Node_ISOLATED"));
    let err = plan_route(&Graph::from_layout(&layout), "Node_BL", "Node_ISOLATED").unwrap_err();
    assert!(matches!(err, RouteError::NoRoute(_, _)));
}

#[test]
fn unknown_start_is_reported_before_unknown_goal() {
    let err = plan_route(&valid_graph(), "Node_X", "Node_Y").unwrap_err();
    assert!(matches!(err, RouteError::UnknownStart(ref s) if s == "Node_X"));
    assert_eq!(err.code(), "unknown_start_node");
    assert_eq!(
        err.message(),
        "start node 'Node_X' does not exist in the current layout"
    );
}

#[test]
fn route_error_codes_and_messages() {
    let goal = RouteError::UnknownGoal("G".to_string());
    assert_eq!(goal.code(), "unknown_goal_node");
    assert_eq!(
        goal.message(),
        "goal node 'G' does not exist in the current layout"
    );
    let none = RouteError::NoRoute("A".to_string(), "B".to_string());
    assert_eq!(none.code(), "no_route");
    assert_eq!(none.message(), "no route exists from 'A' to 'B'");
}

#[test]
fn route_follows_edge_direction_around_the_loop() {
    // Node_TC only leads to Node_TL, which only leads to Node_BL.
    let result = plan_route(&valid_graph(), "Node_TC", "Node_BC").unwrap();
    assert_eq!(result.nodes, vec!["Node_TC", "Node_TL", "Node_BL", "Node_BC"]);
    assert_eq!(result.edges, vec!["TC_2_TL", "TL_2_BL", "BL_2_BC"]);
    assert!((length(result.distance) - 38.0).abs() < 1e-9);
    assert_eq!(result.edges.len() + 1, result.nodes.len());
}

#[test]
fn every_pair_of_nodes_of_a_valid_layout_has_a_route() {
    let graph = valid_graph();
    let ids = ["Node_BL", "Node_BC", "Node_BR", "Node_TC", "Node_TR", "Node_TL"];
    for start in ids {
        for goal in ids {
            let route = plan_route(&graph, start, goal).unwrap();
            assert_eq!(route.nodes.first().map(|s| s.as_str()), Some(start));
            assert_eq!(route.nodes.last().map(|s| s.as_str()), Some(goal));
        }
    }
}

#[test]
fn equal_cost_routes_prefer_the_larger_node_index() {
    // Two routes of equal length from S to G: through A (index 1) or B (index 2).
    let layout = Layout {
        id: "tie".into(),
        nodes: vec![
            node("S", 0.0, 0.0),
            node("A", 1.0, 0.0),
            node("B", 0.0, 1.0),
            node("G", 1.0, 1.0),
        ],
        edges: vec![
            edge("S_A", "S", "A"),
            edge("S_B", "S", "B"),
            edge("A_G", "A", "G"),
            edge("B_G", "B", "G"),
        ],
    };
    let route = plan_route(&Graph::from_layout(&layout), "S", "G").unwrap();
    assert_eq!(route.nodes, vec!["S", "B", "G"]);
    assert!((length(route.distance) - 2.0).abs() < 1e-9);
}

#[test]
fn weights_are_floor_of_euclidean_length() {
    assert_eq!(isqrt(0), 0);
    assert_eq!(isqrt(15), 3);
    assert_eq!(isqrt(16), 4);
    assert_eq!(isqrt(u128::MAX), u64::MAX);
    let a = Position { x: 0, y: 0 };
    let b = Position { x: 3_000_000, y: 4_000_000 };
    assert_eq!(euclidean_weight(&a, &b), 5_000_000_000_000);
    let c = Position { x: 1, y: 1 };
    // sqrt(2) * 10^6 = 1414213.56...
    assert_eq!(euclidean_weight(&a, &c), 1_414_213);
    let far = Position {
        x: MAX_COORDINATE,
        y: MAX_COORDINATE,
    };
    let near = Position {
        x: -MAX_COORDINATE,
        y: -MAX_COORDINATE,
    };
    assert!(euclidean_weight(&near, &far) > 2_828_427_124_746_190_000);
}

#[test]
fn equal_cost_routes_prefer_the_nearer_predecessor() {
    // G is 3 away through A (1 + 2) and through B (2 + 1); A is the nearer predecessor, though
    // B has the larger index.
    let layout = Layout {
        id: "tie_nearer".into(),
        nodes: vec![
            node("S", 0.0, 0.0),
            node("A", 1.0, 0.0),
            node("B", 2.0, 0.0),
            node("G", 3.0, 0.0),
        ],
        edges: vec![
            edge("S_A", "S", "A"),
            edge("S_B", "S", "B"),
            edge("A_G", "A", "G"),
            edge("B_G", "B", "G"),
        ],
    };
    let route = plan_route(&Graph::from_layout(&layout), "S", "G").unwrap();
    assert_eq!(route.nodes, vec!["S", "A", "G"]);
    assert_eq!(route.edges, vec!["S_A", "A_G"]);
    assert!((length(route.distance) - 3.0).abs() < 1e-9);
}

#[test]
fn parallel_edges_prefer_the_earlier_edge() {
    let layout = Layout {
        id: "parallel".into(),
        nodes: vec![node("S", 0.0, 0.0), node("G", 4.0, 3.0)],
        edges: vec![edge("first", "S", "G"), edge("second", "S", "G")],
    };
    let route = plan_route(&Graph::from_layout(&layout), "S", "G").unwrap();
    assert_eq!(route.edges, vec!["first"]);
    assert!((length(route.distance) - 5.0).abs() < 1e-9);
}

#[test]
fn adding_a_driveway_never_lengthens_the_route() {
    let before = plan_route(&valid_graph(), "Node_BL", "Node_TR").unwrap();
    let mut layout = valid_layout();
    layout.edges.push(edge("BL_2_TR", "Node_BL", "Node_TR"));
    let after = plan_route(&Graph::from_layout(&layout), "Node_BL", "Node_TR").unwrap();
    assert!(after.distance <= before.distance);
    assert_eq!(after.edges, vec!["BL_2_TR"]);
    let unchanged = plan_route(&Graph::from_layout(&layout), "Node_TR", "Node_BL").unwrap();
    let original = plan_route(&valid_graph(), "Node_TR", "Node_BL").unwrap();
    assert!(unchanged.distance <= original.distance);
}

#[test]
fn zero_length_edges_follow_the_finishing_order() {
    // Y, U1, G and U2 share a position. U1 is finished before Y (larger index), reaches G at
    // once, and G is finished before Y, so the route never sees U2 behind Y.
    let layout = Layout {
        id: "zero".into(),
        nodes: vec![
            node("S", 0.0, 0.0),
            node("Y", 1.0, 0.0),
            node("U1", 1.0, 0.0),
            node("G", 1.0, 0.0),
            node("U2", 1.0, 0.0),
        ],
        edges: vec![
            edge("S_Y", "S", "Y"),
            edge("S_U1", "S", "U1"),
            edge("U1_G", "U1", "G"),
            edge("Y_U2", "Y", "U2"),
            edge("U2_G", "U2", "G"),
        ],
    };
    let route = plan_route(&Graph::from_layout(&layout), "S", "G").unwrap();
    assert_eq!(route.nodes, vec!["S", "U1", "G"]);
    assert_eq!(route.edges, vec!["S_U1", "U1_G"]);
    assert!((length(route.distance) - 1.0).abs() < 1e-9);
}
