//! A maximum-cardinality selection engine: given named items, each requiring a
//! finite set of resources, pick as many items as possible whose combined
//! (unioned) resource requirement stays within a fixed budget.
//!
//! The crate is organised leaves-first: `bits` backs resource sets with a
//! dense bit vector, `model` holds the mathematical model, `cost` builds the
//! indexed and annotated candidate list, `engine` runs the branch-and-bound
//! search, and `laws` states the global properties of the design.

pub mod bits;
pub mod model;
pub mod cost;
pub mod engine;
pub mod laws;
