//! Structural statistics over an undirected, unweighted network of labeled
//! nodes: all-pairs shortest-hop distances computed by breadth-first search,
//! aggregated into a distance histogram, plus a single-pair path query by
//! node label and integer summary sums over the histogram.

pub mod analysis;
pub mod graph_helpers;
pub mod stats;
