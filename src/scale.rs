//! The covering radius `base^s` of each scale index, as a distance.
use vstd::prelude::*;
use crate::address::Distance;

verus! {

/// The covering radii of a contiguous range of scales, lowest scale first.
/// Below the range the radius is taken as zero and above it as the largest
/// distance, so that lookups never fail; a tree uses scales inside the range.
#[derive(Debug, Clone)]
pub struct ScaleBase {
    min_scale: i32,
    radii: Vec<Distance>,
}

impl ScaleBase {
    /// The lowest scale of the range.
    pub closed spec fn min_scale_spec(&self) -> int {
        self.min_scale as int
    }

    /// The radii, one per scale from the lowest up.
    pub closed spec fn radii_spec(&self) -> Seq<Distance> {
        self.radii@
    }

    /// The covering radius of scale `s`.
    pub open spec fn radius_spec(&self, s: i32) -> Distance {
        if (s as int) < self.min_scale_spec() {
            0
        } else if s as int - self.min_scale_spec() >= self.radii_spec().len() {
            u64::MAX
        } else {
            self.radii_spec()[s as int - self.min_scale_spec()]
        }
    }

    /// Holds `radii[i]` as the radius of scale `min_scale + i`.
    pub fn new(min_scale: i32, radii: Vec<Distance>) -> (r: ScaleBase)
        ensures
            r.min_scale_spec() == min_scale as int,
            r.radii_spec() == radii@,
    {
        ScaleBase { min_scale, radii }
    }

    /// The lowest scale of the range.
    pub fn min_scale(&self) -> (r: i32)
        ensures
            r == self.min_scale_spec(),
    {
        self.min_scale
    }

    /// The radii, one per scale from the lowest up.
    pub fn radii(&self) -> (r: Vec<Distance>)
        ensures
            r@ == self.radii_spec(),
    {
        crate::copy_vec(&self.radii)
    }

    /// A copy of the table.
    pub fn duplicate(&self) -> (r: ScaleBase)
        ensures
            r.min_scale_spec() == self.min_scale_spec(),
            r.radii_spec() == self.radii_spec(),
    {
        ScaleBase { min_scale: self.min_scale, radii: crate::copy_vec(&self.radii) }
    }

    /// The covering radius of scale `s`.
    pub fn radius(&self, s: i32) -> (r: Distance)
        ensures
            r == self.radius_spec(s),
    {
        if s < self.min_scale {
            0
        } else {
            let off = (s as i64 - self.min_scale as i64) as usize;
            if off >= self.radii.len() {
                u64::MAX
            } else {
                self.radii[off]
            }
        }
    }
}

} // verus!
