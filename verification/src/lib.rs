//! Evaluation core of a command-runner: resolves the values of named
//! assignments declared in a task-definition file, decides when each one is
//! computed (eagerly at load time, or lazily only when demanded), requests the
//! execution of shell-backed capture expressions from its caller, and reports
//! evaluation failures with exact source coordinates.

pub mod span;
pub mod feature;
pub mod expr;
pub mod error;
pub mod scope;
pub mod graph;
pub mod engine;
pub mod laws;
