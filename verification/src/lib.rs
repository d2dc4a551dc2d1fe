//! A structural diff/merge library for tree-shaped documents.
//!
//! Two tree-shaped documents are compared by [`builder::create_plan`], which
//! produces a *plan tree*: a copy of the document in which every subtree is
//! annotated with a status (`merge`, `keep`, `add`, `overwrite`, `delete`)
//! and, for overwritten scalars, the prior value. [`applier::apply_plan`]
//! consumes such a plan tree and materializes the resulting document,
//! dropping subtrees marked for deletion.

pub mod applier;
pub mod builder;
pub mod laws;
pub mod plan;
pub mod tree;

pub use tree::TreeValue;
