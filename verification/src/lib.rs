//! Motion-vector clustering and temporal tracking.
//!
//! The crate ingests decoded per-block motion vectors, selects the active
//! ones, groups them into spatial clusters by density expansion, refines
//! each cluster (bounding box, mean direction and magnitude, nesting), and
//! tracks clusters across frames under stable identities with expiration
//! of inactive entries.

pub mod cluster;
pub mod dbscan;
pub mod laws;
pub mod motion;
pub mod pipeline;
pub mod reduce;
pub mod refine;
pub mod tracker;
