//! A clustering interface over spatially bounded objects. It is declared
//! for future implementations and consumed nowhere in this crate: no type
//! here implements it.

use vstd::prelude::*;

use crate::geom::ObjectBound;

verus! {

/// How many clusters to form: decided automatically or given by hand.
pub enum ClusterSize {
    Auto,
    Manual(usize),
}

/// The distance metric clustering goes by.
pub enum ClusterMetric {
    L1,
    L2,
}

/// The clustering method.
pub enum ClusterMethod {
    Density,
    Average,
    Gaussian,
}

/// The order in which the input is taken up.
pub enum ClusterOrder {
    InOrder,
    PreSample,
}

/// Building clusters over payload-bound pairs and querying which cluster a
/// payload landed in.
pub trait ICluster {
    /// The cluster of the given payload.
    fn query_cluster(&self, input: u64) -> Result<u64, &'static str>;

    /// Builds the clusters from payload-bound pairs.
    fn build_all(
        &mut self,
        size: ClusterSize,
        method: ClusterMethod,
        metric: ClusterMetric,
        order: ClusterOrder,
        input: Vec<(u64, ObjectBound)>,
    ) -> Result<(), &'static str>;
}

} // verus!
