//! Builds the inter-crate dependency graph of a directory of crates: each
//! crate's manifest names the crates it depends on, and the graph holds one
//! node per crate, in sorted order, and one edge per declared dependency.
use vstd::prelude::*;

pub mod order;
pub mod depmap;
pub mod graph;
pub mod manifest;
pub mod projects;

verus! {

/// What a run is given: the directory that holds the crates, and the file
/// that the graph description is written to.
pub struct Config {
    pub path: String,
    pub out: String,
}

} // verus!
