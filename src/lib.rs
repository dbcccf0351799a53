//! Monomorphization-aware call-graph construction over a program's typed
//! control-flow IR. Each call edge carries its constraint depth: the number of
//! conditional branches on a shortest control-flow walk from the caller's entry
//! to the call. Queries find the direct and transitive callers of a target.
//!
//! The program itself is described by a `model::ProgramModel`: its roots, the
//! body of each instance, its definitions and its dispatch table.

pub mod args;
pub mod body;
pub mod builder;
pub mod constraint;
pub mod driver;
pub mod graph;
pub mod instance;
pub mod model;
pub mod names;
pub mod query;
pub mod report;
pub mod resolver;
pub mod timer;
