//! A tensor-program compiler core: symbolic shape tracking, primitive
//! operators, a rewritable dataflow graph and its execution engine.

pub mod ahead;
pub mod broadcast;
pub mod builder;
pub mod combine;
pub mod compiler;
pub mod dim;
pub mod edit;
pub mod elementwise;
pub mod engine;
pub mod felt;
pub mod graph;
pub mod indexer;
pub mod kernel;
pub mod layout;
pub mod lower;
pub mod op;
pub mod op_laws;
pub mod ops;
pub mod pass;
pub mod pass_laws;
pub mod precomputing;
pub mod query;
pub mod reduce;
pub mod replace;
pub mod rewrite;
pub mod run;
pub mod serialization;
pub mod shape_laws;
pub mod step;
pub mod store;
pub mod tensor;
pub mod topo;
pub mod tracker;
pub mod window_laws;
