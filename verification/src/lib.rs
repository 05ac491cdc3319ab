//! Barnes-Hut spatial approximation engine over fixed-point coordinates.
//!
//! An octree aggregates point masses into centers of mass per cubic region
//! and answers "net repulsive force on a point" queries by substituting a
//! single aggregate for any subtree whose angular size, seen from the query
//! point, falls below a tunable threshold (theta).
//!
//! Two implementations of the same contract are provided:
//! a recursive, pointer-based tree ([`barnes_hut::OctreeNode`]) and a flat,
//! array-based tree with skip links for stack-free iterative traversal
//! ([`barnes_hut_no_stack::Octree`]).
//!
//! All geometry is carried in fixed-point units: 1000 units stand for one
//! source-scale unit, so the classic 0.01 minimum-distance cutoff is 10
//! units ([`MIN_DISTANCE_SQ`] is its square). Coordinates, masses and the
//! repulsion coefficient are bounded by the named limits below so that all
//! force arithmetic is exact and free of overflow.

pub mod vec3;
pub mod numeric;
pub mod bounds;
pub mod repulsion;
pub mod barnes_hut;
pub mod barnes_hut_no_stack;
pub mod database;

use vstd::prelude::*;

verus! {

/// Levels below the root at which subdivision stops; points falling into an
/// over-deep region are merged into one aggregate instead of splitting it.
pub const MAX_DEPTH: u32 = 8;

/// 2^MAX_DEPTH. A root half-extent must be a multiple of this so that every
/// permitted subdivision halves the half-extent exactly.
pub const HALF_EXTENT_STEP: i64 = 256;

/// Magnitude bound on every coordinate handled by the trees.
pub const COORD_LIMIT: i64 = 1_000_000_000;

/// Squared minimum separation (10 units = 0.01 source units); pairs closer
/// than this contribute no force.
pub const MIN_DISTANCE_SQ: i64 = 100;

/// Largest mass accepted for a single insertion or query point.
pub const POINT_MASS_LIMIT: i64 = 1_000_000;

/// Largest total mass a tree may aggregate.
pub const TOTAL_MASS_LIMIT: i64 = 10_000_000;

/// Largest repulsion coefficient.
pub const COEFF_LIMIT: i64 = 1_000_000_000_000;

/// Bound on the numerator and denominator of the theta threshold.
pub const THETA_LIMIT: i64 = 1_000_000;

} // verus!
