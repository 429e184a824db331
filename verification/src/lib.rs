//! Density-based spatial clustering (DBSCAN) with discovery-parent tracking.
//!
//! The labeling core works on a precomputed neighbor table: for each point
//! index, the indices of the points within the clustering radius.  Building
//! that table from raw coordinates is the job of a spatial query accelerator
//! outside this library; the core here walks the table, classifies every
//! point as noise or as a member of a cluster, and records for each cluster
//! member the index of the point that discovered it, so that a caller can
//! draw one expansion tree per cluster.

mod cluster;
mod hash;

pub use cluster::{
    check_neighbor_table, cluster_edges, dbscan_parents, label_clusters, ConfigError, Label,
};
pub use hash::{trivial_random, FxHasher};
