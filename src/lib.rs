//! Control-flow-aware call graphs of C code: call sites classified by the
//! control-flow construct around them, the functions reachable from an entry
//! point, a cycle-tolerant topological order, and a DOT description.
use vstd::prelude::*;

pub mod function_db;
pub mod tracker;
pub mod call_graph;
pub mod text;
pub mod dot;
pub mod ctypes;
pub mod cli;
pub mod front_end;

verus! {

} // verus!
