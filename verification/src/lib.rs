//! A registry of named, weighted, undirected graphs with on-demand
//! minimum-spanning-tree queries, computed by Kruskal's algorithm over a
//! union-find structure.

pub mod edges;
pub mod mst;
pub mod dsu;
pub mod parse;
pub mod registry;
