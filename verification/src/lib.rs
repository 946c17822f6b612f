//! Construction, minimization and landmark precomputation for a routable
//! road-network graph extracted from an OpenStreetMap binary dump.
//!
//! The pipeline: filter the raw ways and nodes, build a directed weighted
//! graph, contract intermediate nodes (and optionally prune dead ends)
//! without disturbing shortest-path distances, renumber the surviving nodes
//! into a dense range, and run Dijkstra from a set of far-apart landmarks
//! on the forward and reverse graphs.

pub mod coord;
pub mod edge;
pub mod graph;
pub mod minimize;
pub mod preprocessor;
pub mod routing;

pub use edge::Edge;
pub use graph::Graph;
