//! SSA construction, SSA destruction, register coloring and CVM code emission for
//! the control flow graphs of CVM templates and functions.

pub mod ast;
pub mod cfg;
pub mod cfg_construction;
pub mod cfg_list;
pub mod collections;
pub mod cvm_emission;
pub mod dot;
pub mod edge_liveness;
pub mod graph;
pub mod initial_parsers;
pub mod liveness;
pub mod ssa_destruction;
pub mod text;
pub mod tree_scan;
pub mod types;
