//! Abstraktor: the decision logic of a fuzzing pipeline's developer tool.
//!
//! The heart of the crate is the annotation scanner in [`model::instrumentor`]:
//! it finds marker comments in source text and resolves each to the line of the
//! next statement.  [`intrumentor`] is the plain line scanner, which lists the
//! marked lines themselves.  [`model::event_graph`] turns a mediator log into
//! per-node state graphs, [`logger`] decides which notices a verbosity level
//! lets through, [`commands`] holds the argument records of the command line
//! with the decisions that the commands take, [`text`] states the notions of
//! text that all of them rely on, and [`pattern`] is the door to the `regex`
//! crate.
use vstd::prelude::*;

pub mod commands;
pub mod intrumentor;
pub mod logger;
pub mod model;
pub mod pattern;
pub mod text;

verus! {

} // verus!
