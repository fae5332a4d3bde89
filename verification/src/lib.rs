//! A deductive-database engine: a Datalog dialect with stratified negation and
//! aggregation, compiled to a small relational-algebra program and evaluated
//! by a semi-naive fixpoint machine over in-memory relations.
//!
//! A program is built from declarations, facts and rules ([`logic`]),
//! stratified by the strongly connected components of its dependency graph,
//! and lowered to statements over the three versions of each relation
//! ([`ram`]). A machine ([`runtime`]) takes input facts in, runs the
//! statements epoch by epoch over its storage ([`storage`]), and gives the
//! derived facts out.

pub mod canonical;
pub mod error;
pub mod fact;
pub mod id;
pub mod logic;
pub mod ram;
pub mod runtime;
pub mod storage;
pub mod timestamp;
pub mod tuple;
pub mod types;
pub mod value;
pub mod var;
