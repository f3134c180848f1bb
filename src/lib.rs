//! Least-cost path search on a 4-connected grid of per-cell traversal costs.
//!
//! `grid_graph` holds the grid and its cells, `cost_function` the scoring
//! strategies, and `pathfinding` the best-first search that ties them together.
use vstd::prelude::*;

pub mod grid_graph;
pub mod cost_function;
pub mod pathfinding;

verus! {

} // verus!
