//! The two models of the tool: instrumentation targets and event graphs.
pub mod event_graph;
pub mod instrumentor;
pub mod traces;

pub use event_graph::{Edge, EventGraph, NodeGraph};
