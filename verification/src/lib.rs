//! Layout validation and route planning for a fleet of vehicles driving on a directed
//! graph of driveways.
pub mod connectivity;
pub mod graph;
pub mod lookup;
pub mod laws;
pub mod models;
pub mod routing;
pub mod service;
pub mod text;
pub mod validation;
