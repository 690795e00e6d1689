// A task runner: task definitions and their materialization, the resolution of
// a configuration file into a registry, the order in which a task and the
// tasks it needs run, and the decisions of a cooperative scheduler.

use vstd::prelude::*;

pub mod text;
pub mod vars;
pub mod argv;
pub mod error;
pub mod command;
pub mod concurrent;
pub mod context;
pub mod resolver;
pub mod scheduler;
pub mod lookup;

verus! {

} // verus!
