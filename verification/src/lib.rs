//! Shortest-path queries between 3D points over a static walkable-surface
//! graph (a navigation mesh). The crate offers a weighted directed graph with
//! a Euclidean heuristic, A* search backed by a result cache, a startup
//! precomputation pass that warms the cache, and a path service that resolves
//! raw coordinates to graph nodes and can split long queries into stitched
//! segments.
//!
//! Coordinates and edge costs are fixed-point integers: callers scale
//! real-world units into integer units once, at the boundary.

pub mod cache;
pub mod edge;
pub mod graph;
pub mod metrics;
pub mod node;
pub mod path;
pub mod pathfinder;
pub mod settings;
pub mod utils;

pub use pathfinder::RePathfinder;
