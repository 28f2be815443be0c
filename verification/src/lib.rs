//! Content-addressed object storage with a Merkle snapshot tree, a structural
//! diff engine, and branch/commit pointer state for a small version-control
//! core.

pub mod codec;
pub mod commit;
pub mod diff;
pub mod errors;
pub mod ignore;
pub mod object_id;
pub mod render;
pub mod repo;
pub mod store;
pub mod text;
pub mod tree;

use vstd::prelude::*;

verus! {

/// The name of the repository's own metadata directory, always excluded when a
/// working directory is walked into a snapshot tree.
pub const DOT_YUAN_SHEN: &'static str = ".ys";

} // verus!
