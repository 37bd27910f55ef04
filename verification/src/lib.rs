//! Enumeration of all simple paths of bounded length between two nodes of a
//! directed graph.
//!
//! The crate holds an immutable adjacency representation (`graph`), the
//! recursive bounded depth-first search kernel and its frontier splitter
//! (`dfs`), the partition and work-donation machinery behind the parallel
//! executors (`dfs_parallel`), a bidirectional half-search composer
//! (`incremental_dfs`), and the cursor arithmetic of the byte buffer used by
//! the binary graph loader (`buffer`). Every search function carries a
//! contract that pins its result down to the set of valid interior paths,
//! stated over the specification functions of `paths`.

pub mod buffer;
pub mod dfs;
pub mod dfs_parallel;
pub mod engine;
pub mod graph;
pub mod incremental_dfs;
pub mod laws;
pub mod load;
pub mod paths;

use vstd::prelude::*;

verus! {

/// A walk through the graph, as the ordered sequence of its node ids.
pub type GraphPath = Vec<i64>;

} // verus!
