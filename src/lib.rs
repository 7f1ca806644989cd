//! Static range analysis over a procedure's control-flow graph.
//!
//! The pipeline, module by module:
//! - `cfg`: the procedure body (blocks, statements, terminators) and its graph;
//! - `dominance`: dominators, the immediate-dominator tree and the dominance
//!   frontier, all defined over paths from the entry;
//! - `sigma`: branch-conditioned copies placed on the edges of comparisons;
//! - `ssa` and `transform`: phi placement and renaming into SSA form;
//! - `range`: the interval domain;
//! - `graph`: the constraint graph and the evaluation of its operations;
//! - `scc`: its strongly connected components, in dependency order;
//! - `solver`: widening, symbolic bounds and narrowing per component;
//! - `analysis`: the whole analysis from a body to a range per variable.
pub mod analysis;
pub mod cfg;
pub mod dominance;
pub mod graph;
pub mod range;
pub mod scc;
pub mod sigma;
pub mod solver;
pub mod ssa;
pub mod transform;
