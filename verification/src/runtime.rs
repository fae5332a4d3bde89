//! The machine that runs a lowered program, the evaluation of its
//! operations, and what holds of both.

pub mod blockstore;
pub mod eval;
pub mod fixpoint;
pub mod laws;
pub mod origin;
pub mod reduce;
pub mod vm;
