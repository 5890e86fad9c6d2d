use fleet_challenge::graph::Graph;
use fleet_challenge::models::{Edge, Layout, Node, Position, COORDINATE_SCALE};
use fleet_challenge::routing::RouteError;
use fleet_challenge::service::{
    route_request, submit_layout, RouteRequest, ServiceError, STATUS_INVALID_LAYOUT, STATUS_OK,
};

fn node(id: &str, x: f64, y: f64) -> Node {
    Node {
        id: id.into(),
        position: Position {
            x: (x * COORDINATE_SCALE as f64).round() as i64,
            y: (y * COORDINATE_SCALE as f64).round() as i64,
        },
    }
}

fn edge(id: &str, source: &str, sink: &str) -> Edge {
    Edge {
        id: id.into(),
        source: source.into(),
        sink: sink.into(),
    }
}

fn valid_layout() -> Layout {
    Layout {
        id: "Valid_map".into(),
        nodes: vec![
            node("Node_BL", 0.0, 0.0),
            node("Node_BC", 18.0, 0.0),
            node("Node_BR", 25.0, 0.0),
            node("Node_TC", 10.0, 10.0),
            node("Node_TR", 25.0, 10.0),
            node("Node_TL", 0.0, 10.0),
        ],
        edges: vec![
            edge("BL_2_BC", "Node_BL", "Node_BC"),
            edge("BC_2_BR", "Node_BC", "Node_BR"),
            edge("BR_2_TR", "Node_BR", "Node_TR"),
            edge("TR_2_TC", "Node_TR", "Node_TC"),
            edge("BC_2_TR", "Node_BC", "Node_TR"),
            edge("BC_2_TC", "Node_BC", "Node_TC"),
            edge("TC_2_TL", "Node_TC", "Node_TL"),
            edge("TL_2_BL", "Node_TL", "Node_BL"),
            edge("TR_2_BC", "Node_TR", "Node_BC"),
        ],
    }
}

fn invalid_layout() -> Layout {
    let mut layout = valid_layout();
    layout
        .edges
        .push(edge("TR_2_GHOST", "Node_TR", "Node_GHOST"));
    layout
}

fn request(start: &str, goal: &str) -> RouteRequest {
    RouteRequest {
        start: start.into(),
        goal: goal.into(),
    }
}

fn submit_valid_layout() -> Option<Graph> {
    let mut stored = None;
    assert!(submit_layout(&mut stored, &valid_layout()).is_ok());
    assert_eq!(STATUS_OK, 200);
    stored
}

#[test]
fn validation_api_valid_layout_returns_ok() {
    let mut stored = None;
    let result = submit_layout(&mut stored, &valid_layout());
    assert!(result.is_ok());
    assert!(stored.is_some());
}

#[test]
fn validation_api_invalid_layout_returns_unprocessable_entity() {
    let mut stored = None;
    let errors = submit_layout(&mut stored, &invalid_layout()).unwrap_err();
    assert_eq!(STATUS_INVALID_LAYOUT, 422);
    assert_eq!(errors[0].rule, "edge_references_existing_node");
    assert_eq!(
        errors[0].message,
        "Edge 'TR_2_GHOST' references unknown sink node 'Node_GHOST'"
    );
    assert!(stored.is_none());
}

#[test]
fn routing_api_valid_layout_followed_by_route_returns_expected_path() {
    let stored = submit_valid_layout();
    let route = route_request(&stored, &request("Node_BR", "Node_BC")).unwrap();
    assert_eq!(route.nodes, vec!["Node_BR", "Node_TR", "Node_BC"]);
    assert_eq!(route.edges, vec!["BR_2_TR", "TR_2_BC"]);
}

#[test]
fn routing_api_invalid_layout_does_not_replace_last_valid_layout() {
    let mut stored = submit_valid_layout();
    assert!(submit_layout(&mut stored, &invalid_layout()).is_err());
    let route = route_request(&stored, &request("Node_BL", "Node_BC")).unwrap();
    assert_eq!(route.nodes, vec!["Node_BL", "Node_BC"]);
    assert_eq!(route.edges, vec!["BL_2_BC"]);
}

#[test]
fn routing_api_route_respects_edge_direction() {
    let stored = submit_valid_layout();
    let route = route_request(&stored, &request("Node_BR", "Node_BC")).unwrap();
    assert_eq!(route.nodes, vec!["Node_BR", "Node_TR", "Node_BC"]);
    assert_eq!(route.edges, vec!["BR_2_TR", "TR_2_BC"]);
}

#[test]
fn route_before_valid_layout_returns_service_unavailable() {
    let err = route_request(&None, &request("Node_BR", "Node_BC")).unwrap_err();
    assert!(matches!(err, ServiceError::NoValidLayout));
    assert_eq!(err.status(), 503);
    assert_eq!(err.code(), "no_valid_layout");
    assert_eq!(
        err.message(),
        "no valid layout has been submitted to /api/v1/layout/validate yet"
    );
}

#[test]
fn unknown_node_returns_not_found_with_error_code() {
    let stored = submit_valid_layout();
    let err = route_request(&stored, &request("Node_GHOST", "Node_BC")).unwrap_err();
    assert_eq!(err.status(), 404);
    assert_eq!(err.code(), "unknown_start_node");
}

#[test]
fn unknown_goal_returns_not_found_with_error_code() {
    let stored = submit_valid_layout();
    let err = route_request(&stored, &request("Node_BC", "Node_GHOST")).unwrap_err();
    assert_eq!(err.status(), 404);
    assert_eq!(err.code(), "unknown_goal_node");
}

#[test]
fn no_route_is_unprocessable() {
    let err = ServiceError::Route(RouteError::NoRoute("A".into(), "B".into()));
    assert_eq!(err.status(), 422);
    assert_eq!(err.code(), "no_route");
    assert_eq!(err.message(), "no route exists from 'A' to 'B'");
}

#[test]
fn a_later_valid_layout_replaces_the_stored_graph() {
    let mut stored = submit_valid_layout();
    let other = Layout {
        id: "other".into(),
        nodes: vec![node("Node_X1", 0.0, 0.0), node("Node_X2", 3.0, 4.0)],
        edges: vec![
            edge("X1_2_X2", "Node_X1", "Node_X2"),
            edge("X2_2_X1", "Node_X2", "Node_X1"),
        ],
    };
    assert!(submit_layout(&mut stored, &other).is_ok());
    let route = route_request(&stored, &request("Node_X1", "Node_X2")).unwrap();
    assert_eq!(route.edges, vec!["X1_2_X2"]);
    assert_eq!(route.distance, 5_000_000_000_000);
    let err = route_request(&stored, &request("Node_BL", "Node_BC")).unwrap_err();
    assert_eq!(err.code(), "unknown_start_node");
}
