use vstd::prelude::*;

verus! {

/// Configuration for the pathfinder. Distances are fixed-point units, the
/// same scale as node coordinates and edge costs.
#[derive(Debug, Clone)]
pub struct RePathSettings {
    /// Identifier of the navigation mesh source (a Wavefront OBJ file name);
    /// loading it is the caller's business, the core never touches it.
    pub navmesh_filename: String,
    /// Radius within which precomputed pairs are sampled. Higher values mean
    /// longer precomputation but faster long-distance queries.
    pub precompute_radius: u64,
    /// How many random node pairs to precompute paths for at startup.
    pub total_precompute_pairs: usize,
    /// Whether to warm the cache at construction time.
    pub use_precomputed_cache: bool,
}

} // verus!
