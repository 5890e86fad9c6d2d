//! The decisions of the layout service: which graph is kept as the last valid one, and how
//! each route request is answered, HTTP status included.
use vstd::prelude::*;

use crate::graph::{graph_of_layout, Graph};
use crate::models::Layout;
use crate::routing::{plan_route, route_error_code, route_error_message, route_outcome, RouteError, RouteResult};
use crate::validation::{layout_violations, validate_layout, violation_views, ValidationError};

verus! {

/// Represents a request to plan a route between two nodes in the graph.
#[derive(Debug)]
pub struct RouteRequest {
    pub start: String,
    pub goal: String,
}

/// Why a route request was refused.
#[derive(Debug)]
pub enum ServiceError {
    /// No layout has passed validation yet.
    NoValidLayout,
    /// Route planning on the last valid graph failed.
    Route(RouteError),
}

/// The HTTP status that answers a refused route request.
pub open spec fn service_error_status(err: ServiceError) -> u16 {
    match err {
        ServiceError::NoValidLayout => 503,
        ServiceError::Route(RouteError::UnknownStart(_)) => 404,
        ServiceError::Route(RouteError::UnknownGoal(_)) => 404,
        ServiceError::Route(RouteError::NoRoute(_, _)) => 422,
    }
}

/// The machine-readable code that answers a refused route request.
pub open spec fn service_error_code(err: ServiceError) -> Seq<char> {
    match err {
        ServiceError::NoValidLayout => "no_valid_layout"@,
        ServiceError::Route(e) => route_error_code(e),
    }
}

/// The human-readable message that answers a refused route request.
pub open spec fn service_error_message(err: ServiceError) -> Seq<char> {
    match err {
        ServiceError::NoValidLayout => "no valid layout has been submitted to /api/v1/layout/validate yet"@,
        ServiceError::Route(e) => route_error_message(e),
    }
}

impl ServiceError {
    /// The HTTP status of the error response.
    pub fn status(&self) -> (status: u16)
        ensures
            status == service_error_status(*self),
    {
        match self {
            ServiceError::NoValidLayout => 503,
            ServiceError::Route(RouteError::UnknownStart(_)) => 404,
            ServiceError::Route(RouteError::UnknownGoal(_)) => 404,
            ServiceError::Route(RouteError::NoRoute(_, _)) => 422,
        }
    }

    /// The machine-readable error code.
    pub fn code(&self) -> (code: &'static str)
        ensures
            code@ == service_error_code(*self),
    {
        match self {
            ServiceError::NoValidLayout => "no_valid_layout",
            ServiceError::Route(e) => e.code(),
        }
    }

    /// The human-readable error message.
    pub fn message(&self) -> (message: String)
        ensures
            message@ == service_error_message(*self),
    {
        match self {
            ServiceError::NoValidLayout => {
                "no valid layout has been submitted to /api/v1/layout/validate yet".to_owned()
            },
            ServiceError::Route(e) => e.message(),
        }
    }
}

/// The status of a successful validation or route response.
pub const STATUS_OK: u16 = 200;

/// The status of a response to a layout that fails validation.
pub const STATUS_INVALID_LAYOUT: u16 = 422;

/// The machine-readable code that answers a layout failing validation.
pub fn invalid_layout_code() -> (code: &'static str)
    ensures
        code@ == "invalid_layout"@,
{
    "invalid_layout"
}

/// The human-readable message that answers a layout failing validation.
pub fn invalid_layout_message() -> (message: &'static str)
    ensures
        message@ == "layout validation failed"@,
{
    "layout validation failed"
}

/// Keeps the outcome of a validation: a graph replaces the last valid graph, and a list of
/// violations leaves it as it was and is handed back.
pub fn keep_if_valid(
    last_valid_graph: &mut Option<Graph>,
    outcome: Result<Graph, Vec<ValidationError>>,
) -> (result: Result<(), Vec<ValidationError>>)
    ensures
        match outcome {
            Ok(graph) => result is Ok && *final(last_valid_graph) == Some(graph),
            Err(errors) => {
                &&& result == Err::<(), Vec<ValidationError>>(errors)
                &&& *final(last_valid_graph) == *old(last_valid_graph)
            },
        },
{
    match outcome {
        Ok(graph) => {
            *last_valid_graph = Some(graph);
            Ok(())
        },
        Err(errors) => Err(errors),
    }
}

/// Validates `layout`; when it passes, its graph replaces the last valid graph, and when it
/// fails, the last valid graph stays as it was and every violation is returned.
pub fn submit_layout(last_valid_graph: &mut Option<Graph>, layout: &Layout) -> (result: Result<
    (),
    Vec<ValidationError>,
>)
    ensures
        match result {
            Ok(()) => {
                &&& layout_violations(layout).len() == 0
                &&& *final(last_valid_graph) is Some
                &&& graph_of_layout(layout, (*final(last_valid_graph))->0@)
            },
            Err(errors) => {
                &&& errors@.len() > 0
                &&& violation_views(errors@) == layout_violations(layout)
                &&& *final(last_valid_graph) == *old(last_valid_graph)
            },
        },
{
    keep_if_valid(last_valid_graph, validate_layout(layout))
}

/// Answers a route request from the last valid graph: refused while no layout has passed
/// validation, and otherwise planned on that graph.
pub fn route_request(last_valid_graph: &Option<Graph>, request: &RouteRequest) -> (result: Result<
    RouteResult,
    ServiceError,
>)
    ensures
        match last_valid_graph {
            None => result matches Err(ServiceError::NoValidLayout),
            Some(graph) => match result {
                Ok(route) => route_outcome(graph@, request.start@, request.goal@, Ok(route)),
                Err(ServiceError::Route(e)) => route_outcome(
                    graph@,
                    request.start@,
                    request.goal@,
                    Err(e),
                ),
                Err(ServiceError::NoValidLayout) => false,
            },
        },
{
    match last_valid_graph {
        None => Err(ServiceError::NoValidLayout),
        Some(graph) => match plan_route(graph, request.start.as_str(), request.goal.as_str()) {
            Ok(route) => Ok(route),
            Err(e) => Err(ServiceError::Route(e)),
        },
    }
}

} // verus!
