//! The acceleration interface for building and querying spatial data.

use vstd::prelude::*;

use crate::geom::ObjectBound;
use crate::BvhError;

verus! {

/// Building a spatial index over payload-bound pairs, and querying it for
/// the payloads whose bounds overlap an input bound.
pub trait ISpatialAccel<T> {
    /// Every payload intersecting the input bound.
    fn query_intersect(&self, input: &ObjectBound) -> Result<Vec<T>, BvhError>;

    /// At most one payload intersecting the input bound.
    fn query_intersect_single(&self, input: &ObjectBound) -> Result<Vec<T>, BvhError>;

    /// Builds the acceleration structure from payload-bound pairs.
    fn build_all(&mut self, objs: Vec<(T, ObjectBound)>) -> Result<(), BvhError>;
}

} // verus!
