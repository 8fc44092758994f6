//! Shortest paths by Dijkstra's algorithm that keep every path tied for the
//! minimal distance, from one source, from several, or between all pairs of
//! nodes, with an optional distance cutoff and an optional first-path-only mode.
//!
//! - `graph`: the adjacency-list graph that queries read.
//! - `model`: the search loop as spec functions over plain values.
//! - `search`: the executable search loop, proved to follow the model.
//! - `query`: the public queries and what each returns.
//! - `walks`, `laws`, `cutoff`, `ties`: properties of the query results, proved.
use vstd::prelude::*;

pub mod graph;
pub mod model;
pub mod search;
pub mod query;
pub mod walks;
pub mod laws;
pub mod cutoff;
pub mod ties;

verus! {

} // verus!
