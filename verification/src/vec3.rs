//! Fixed-point 3-component vectors: integer positions and force accumulators.

use vstd::prelude::*;

verus! {

/// A position (or position-weighted sum) in fixed-point coordinates.
#[derive(Clone, Copy, PartialEq, Eq, Structural, Debug)]
pub struct IVec3 {
    pub x: i64,
    pub y: i64,
    pub z: i64,
}

/// A force accumulator; wide enough to hold any sum of contributions the
/// limits in the crate root admit.
#[derive(Clone, Copy, PartialEq, Eq, Structural, Debug)]
pub struct Force3 {
    pub x: i128,
    pub y: i128,
    pub z: i128,
}

impl IVec3 {
    pub fn new(x: i64, y: i64, z: i64) -> (v: IVec3)
        ensures
            v == (IVec3 { x, y, z }),
    {
        IVec3 { x, y, z }
    }

    /// Every component bounded by `limit` in magnitude.
    pub open spec fn bounded(self, limit: int) -> bool {
        &&& -limit <= self.x <= limit
        &&& -limit <= self.y <= limit
        &&& -limit <= self.z <= limit
    }
}

impl Force3 {
    pub fn zero() -> (f: Force3)
        ensures
            f == (Force3 { x: 0i128, y: 0i128, z: 0i128 }),
    {
        Force3 { x: 0, y: 0, z: 0 }
    }
}

/// Squared Euclidean distance between two points, as a mathematical integer.
pub open spec fn dist_sq(a: IVec3, b: IVec3) -> int {
    (a.x - b.x) * (a.x - b.x) + (a.y - b.y) * (a.y - b.y) + (a.z - b.z) * (a.z - b.z)
}

} // verus!
