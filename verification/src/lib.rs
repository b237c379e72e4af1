//! Middle-end core of a compiler for a dynamically typed functional language:
//! scope lowering of the high-level tree into loose SSA, the low-level
//! control-flow representation with its liveness analysis, and the rewrite
//! into continuation-passing style.

pub mod flags;
pub mod ssa_variable;
pub mod scope_tracker;
pub mod hir;
pub mod ssa_model;
pub mod ssa_pass;
pub mod lir;
pub mod builder;
pub mod module;
pub mod live;
pub mod cps_model;
pub mod cps_form;
pub mod cps;
pub mod token;
pub mod cfg;
pub mod ssa_laws;
