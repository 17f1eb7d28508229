//! A renderer-agnostic flowchart model of annotated source code, and the
//! builder that derives it from an index of source headers.
pub mod builder;
pub mod calls;
pub mod causes;
pub mod cycles;
pub mod depth;
pub mod flow;
pub mod fuel;
pub mod graph;
pub mod hiding;
pub mod ids;
pub mod index;
pub mod invariants;
pub mod laws;
pub mod memory;
pub mod merge;
pub mod model;
pub mod nesting;
pub mod order;
pub mod placement;
pub mod prelude;
pub mod progress;
pub mod span;
pub mod tables;
pub mod tops;
pub mod trees;
pub mod turns;
