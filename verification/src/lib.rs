//! Indexes a directory subtree into an in-memory tree annotated with
//! aggregate sizes, and lets a caller browse that tree, mark entries, and
//! compute the batch of filesystem removals that the marked entries call for.
//!
//! The crate holds the tree model and the indexing logic only. Reading the
//! filesystem, the terminal front end, and the removals themselves are left
//! to the surrounding program, which hands this library plain values
//! (paths as component lists, sizes in bytes, per-entry scan outcomes) and
//! receives nodes and removal plans back.

pub mod application;
pub mod fspath;
pub mod index;
pub mod model;
pub mod node;
