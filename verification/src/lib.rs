//! A spatial index over axis-aligned bounding volumes: a binary bounding
//! volume hierarchy (BVH) built once from a set of payload objects and then
//! queried read-only for payloads whose bounds overlap a query bound.
//!
//! The floating-point geometry (bound unions, overlap tests, and the
//! projection of bounds onto split bins) is supplied by the `mazth` crate and
//! stays behind a small trusted adapter in `geom`; everything structural --
//! partitioning, tree construction, traversal and pruning -- is verified.

use vstd::prelude::*;

pub mod bvh;
pub mod geom;
pub mod i_cluster;
pub mod i_spatial_accel;
pub mod partition;

verus! {

/// The two ways an operation on the index fails: a bound whose shape kind
/// is not the accepted axis-aligned box, and a configuration with a zero
/// bin count.
#[derive(Clone, Copy, Debug, PartialEq, Eq, Structural)]
pub enum BvhError {
    UnsupportedBoundKind,
    InvalidConfiguration,
}

} // verus!
