//! The logical representation of a program, its builders, its
//! stratification and its lowering to relational algebra, with what holds of
//! the lowering.

pub mod ast;
pub mod builder;
pub mod graph;
pub mod lower_to_ram;
pub mod lowering_laws;
pub mod program_builder;
pub mod program_soundness;
pub mod soundness;
pub mod stratify;
