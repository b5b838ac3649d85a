//! Trusted adapter around the `mazth` geometric primitives.
//!
//! The verified core never looks inside an axis-aligned box: boxes are opaque
//! values, and every floating-point computation on them -- union, overlap,
//! and the projection of a box onto the split bins of an enclosing box --
//! happens behind the trusted functions of this module. Each projection
//! result is a plain integer, which the verified partitioning logic consumes.

use vstd::prelude::*;

use mazth::bound::Axis;
use mazth::bound::AxisAlignedBBox;
use mazth::i_bound::IBound;

verus! {

/// Declares mazth's `AxisAlignedBBox` to the verifier. Its values are
/// opaque to the verified code and only move through the trusted functions
/// of this module.
#[verifier::external_type_specification]
#[verifier::external_body]
pub struct ExAxisAlignedBBox(AxisAlignedBBox);

/// A bound as supplied by a caller: either the one accepted shape kind
/// (an axis-aligned box) or a bound of any other kind, which every
/// operation of this crate rejects before doing any work.
pub enum ObjectBound {
    AxisAligned(AxisAlignedBBox),
    Other,
}

impl ObjectBound {
    /// The one accepted shape kind.
    pub open spec fn is_supported(&self) -> bool {
        self is AxisAligned
    }
}

/// The componentwise min/max union of a sequence of boxes, as
/// `AxisAlignedBBox::get_union` computes it.
pub uninterp spec fn union_of(bs: Seq<AxisAlignedBBox>) -> AxisAlignedBBox;

/// Whether two boxes overlap, as `AxisAlignedBBox::intersect` decides it.
pub uninterp spec fn overlaps(a: AxisAlignedBBox, b: AxisAlignedBBox) -> bool;

/// Relies on `AxisAlignedBBox::get_union`: it resets the receiver and folds
/// the componentwise minimum of the lower corners and maximum of the upper
/// corners of the given boxes, a function of their coordinates alone.
#[verifier::external_body]
pub fn union_bounds(bs: &Vec<AxisAlignedBBox>) -> (r: AxisAlignedBBox)
    ensures
        r == union_of(bs@),
{
    let mut u: AxisAlignedBBox = Default::default();
    let refs: Vec<&dyn IBound> = bs.iter().map(|b| b as &dyn IBound).collect();
    u.get_union(&refs[..]);
    u
}

/// Relies on `AxisAlignedBBox::intersect`: a per-axis interval overlap test
/// between two axis-aligned boxes, a function of their coordinates alone.
#[verifier::external_body]
pub fn bounds_overlap(a: &AxisAlignedBBox, b: &AxisAlignedBBox) -> (r: bool)
    ensures
        r == overlaps(*a, *b),
{
    a.intersect(b)
}

/// The (entry, exit) bin indices of a box `b` along the split axis of an
/// enclosing box `u` divided into `nbins` equal-width bins.
pub uninterp spec fn span_bins_of(b: AxisAlignedBBox, u: AxisAlignedBBox, nbins: u32) -> (
    usize,
    usize,
);

/// The centroid's bin index of a box `b` along the split axis of an enclosing
/// box `u` divided into `nbins` bins, and the raw bit pattern of the
/// centroid's coordinate on that axis.
pub uninterp spec fn centroid_info_of(b: AxisAlignedBBox, u: AxisAlignedBBox, nbins: u32) -> (
    usize,
    u64,
);

/// Relies on `AxisAlignedBBox::get_longest_axis` and `get_bound_data`: takes
/// the entry and exit coordinates of `b` along the split axis that
/// `get_longest_axis` chooses for `u`, rescales each into `nbins` equal-width
/// bins over `u`'s extent -- shrunk by one part in a thousand so that
/// in-range coordinates fall below `nbins` -- and truncates to an index, a
/// function of the two boxes' coordinates alone. The scaling constants are
/// derived from integer conversions into coordinate-typed slots.
#[verifier::external_body]
pub fn span_bins(b: &AxisAlignedBBox, u: &AxisAlignedBBox, nbins: u32) -> (r: (usize, usize))
    ensures
        r == span_bins_of(*b, *u, nbins),
{
    let (axis, length) = u.get_longest_axis();
    let ai = match axis { Axis::X => 0usize, Axis::Y => 1, Axis::Z => 2 };
    let db = b.get_bound_data();
    let du = u.get_bound_data();
    let mut k = [du[0]; 2];
    k[0] = Into::into(nbins);
    k[1] = Into::into(1000u32);
    let one = k[1] / k[1];
    let epsilon = one / k[1];
    let entry = ((db[ai] - du[ai]) / length * k[0] * (one - epsilon)) as usize;
    let exit = ((db[ai + 3] - du[ai]) / length * k[0] * (one - epsilon)) as usize;
    (entry, exit)
}

/// Relies on `AxisAlignedBBox::get_centroid`, `get_longest_axis` and
/// `get_bound_data`: rescales the centroid coordinate of `b` along the split
/// axis of `u` into `nbins` bins exactly as `span_bins` does, and also hands
/// out that coordinate's raw bit pattern, a function of the two boxes'
/// coordinates alone.
#[verifier::external_body]
pub fn centroid_info(b: &AxisAlignedBBox, u: &AxisAlignedBBox, nbins: u32) -> (r: (usize, u64))
    ensures
        r == centroid_info_of(*b, *u, nbins),
{
    let (axis, length) = u.get_longest_axis();
    let ai = match axis { Axis::X => 0usize, Axis::Y => 1, Axis::Z => 2 };
    let c = b.get_centroid();
    let du = u.get_bound_data();
    let mut k = [du[0]; 2];
    k[0] = Into::into(nbins);
    k[1] = Into::into(1000u32);
    let one = k[1] / k[1];
    let epsilon = one / k[1];
    let cbin = ((c[ai] - du[ai]) / length * k[0] * (one - epsilon)) as usize;
    (cbin, c[ai].to_bits())
}

/// Relies on `AxisAlignedBBox`'s derived `Clone`, a field-for-field copy.
pub assume_specification[ <AxisAlignedBBox as Clone>::clone ](
    b: &AxisAlignedBBox,
) -> (r: AxisAlignedBBox)
    ensures
        r == *b,
;

} // verus!
