//! Orchestration engine for the binaries of a local workspace: the state
//! store, the refresh pipeline, the stack resolver and the decisions of the
//! process supervisor.

use vstd::prelude::*;

pub mod cli;
pub mod command;
pub mod common;
pub mod config;
pub mod database;
pub mod error;
pub mod logs;
pub mod ps;
pub mod refresh;
pub mod start;
pub mod state;
pub mod stop;
pub mod text;

verus! {

/// Name of the application: prefix of the scheduler group and of the
/// per-project state directory.
pub const JOCKER: &'static str = "jocker";

/// Handle under which the scheduler knows a launched process.
pub type Pid = u32;

} // verus!
