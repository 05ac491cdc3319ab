//! Recursive Barnes-Hut octree: a pointer tree whose nodes aggregate point
//! masses incrementally on every insertion.

use vstd::prelude::*;
use crate::vec3::{IVec3, Force3, dist_sq};
use crate::bounds::{Bounds, lemma_octant_box_wf, lemma_octant_covers, lemma_octant_divisibility};
use crate::numeric::{abs_i, div_trunc, div_trunc_i64, pow2i, lemma_pow2i_pos};
use crate::repulsion::{pair_force, is_far, accumulate_pair, far_test, lemma_pair_force_bound,
    lemma_far_monotone, lemma_pairwise_concat, pairwise_force, PointMass};
use crate::{COORD_LIMIT, COEFF_LIMIT, MAX_DEPTH, HALF_EXTENT_STEP, MIN_DISTANCE_SQ,
    THETA_LIMIT, TOTAL_MASS_LIMIT};

verus! {

/// A node of the recursive octree: either a leaf holding at most one
/// aggregate, or an interior node with exactly eight children.
///
/// Instead of a divided center of mass the node stores the exact
/// mass-weighted coordinate sum, so aggregation is exact integer arithmetic;
/// the center of mass is derived by division only when a force is evaluated.
pub struct OctreeNode {
    bounds: Bounds,
    level: u32,
    mass: i64,
    weighted: IVec3,
    children: Option<Box<Octants>>,
}

/// The eight children of an interior node, in octant-code order.
struct Octants {
    c0: OctreeNode,
    c1: OctreeNode,
    c2: OctreeNode,
    c3: OctreeNode,
    c4: OctreeNode,
    c5: OctreeNode,
    c6: OctreeNode,
    c7: OctreeNode,
}

/// The weighted coordinate sum of `m` points inside `b` stays inside the
/// cube scaled by `m`.
pub open spec fn in_weighted_box(m: int, w: IVec3, b: Bounds) -> bool {
    &&& m * (b.center.x - b.half) <= w.x <= m * (b.center.x + b.half)
    &&& m * (b.center.y - b.half) <= w.y <= m * (b.center.y + b.half)
    &&& m * (b.center.z - b.half) <= w.z <= m * (b.center.z + b.half)
}

impl OctreeNode {
    pub closed spec fn spec_bounds(self) -> Bounds {
        self.bounds
    }

    pub closed spec fn spec_level(self) -> u32 {
        self.level
    }

    /// Total mass aggregated under this node.
    pub closed spec fn spec_mass(self) -> int {
        self.mass as int
    }

    /// Exact mass-weighted coordinate sum of all aggregated points.
    pub closed spec fn spec_weighted(self) -> (int, int, int) {
        (self.weighted.x as int, self.weighted.y as int, self.weighted.z as int)
    }

    pub closed spec fn spec_is_leaf(self) -> bool {
        self.children is None
    }

    /// Derived center of mass (component-wise truncated division).
    pub closed spec fn com_x(self) -> int {
        div_trunc(self.weighted.x as int, self.mass as int)
    }

    pub closed spec fn com_y(self) -> int {
        div_trunc(self.weighted.y as int, self.mass as int)
    }

    pub closed spec fn com_z(self) -> int {
        div_trunc(self.weighted.z as int, self.mass as int)
    }

    /// Structural invariant: geometry is well-formed and exactly halvable
    /// down to the depth cap, aggregates are consistent, and an interior
    /// node's mass and weighted sum are exactly the sums over its children.
    pub closed spec fn inv(self) -> bool
        decreases self,
    {
        &&& self.bounds.wf()
        &&& self.level <= MAX_DEPTH
        &&& (self.bounds.half as int) % pow2i((MAX_DEPTH - self.level) as nat) == 0
        &&& 0 <= self.mass <= TOTAL_MASS_LIMIT
        &&& in_weighted_box(self.mass as int, self.weighted, self.bounds)
        &&& match self.children {
            Option::None => self.level < MAX_DEPTH ==> self.mass <= 1,
            Option::Some(ch) => {
                &&& self.level < MAX_DEPTH
                &&& self.mass >= 1
                &&& octants_inv(*ch, self.bounds, self.level)
                &&& self.mass as int == sum_mass(*ch)
                &&& self.weighted.x as int == sum_wx(*ch)
                &&& self.weighted.y as int == sum_wy(*ch)
                &&& self.weighted.z as int == sum_wz(*ch)
            },
        }
    }

    /// An empty node over the given cube.
    pub closed spec fn empty_node(b: Bounds, level: u32) -> OctreeNode {
        OctreeNode {
            bounds: b,
            level,
            mass: 0,
            weighted: IVec3 { x: 0, y: 0, z: 0 },
            children: Option::None,
        }
    }

    /// The tree after one insertion: the exact successor state the
    /// executable insertion produces, stated as a function of the old tree.
    /// A point outside the cube leaves the tree untouched; a point at the
    /// depth cap merges into the aggregate in place; a first point is
    /// stored in the leaf; a second point subdivides the leaf once and
    /// both points descend into their octants; below an interior node the
    /// running aggregate grows and the point sinks into its octant child.
    pub closed spec fn spec_inserted(self, position: IVec3) -> OctreeNode
        decreases MAX_DEPTH - self.spec_level(), 1int,
    {
        if !self.bounds.covers(position) {
            self
        } else if self.level >= MAX_DEPTH {
            OctreeNode {
                mass: (self.mass + 1) as i64,
                weighted: IVec3 {
                    x: (self.weighted.x + position.x) as i64,
                    y: (self.weighted.y + position.y) as i64,
                    z: (self.weighted.z + position.z) as i64,
                },
                ..self
            }
        } else if self.children is None {
            if self.mass == 0 {
                OctreeNode { mass: 1, weighted: position, ..self }
            } else {
                let pushed_stored = octants_pushed(fresh_octants(self.bounds, self.level),
                    self.bounds, self.level, self.weighted);
                OctreeNode {
                    mass: (self.mass + 1) as i64,
                    weighted: IVec3 {
                        x: (self.weighted.x + position.x) as i64,
                        y: (self.weighted.y + position.y) as i64,
                        z: (self.weighted.z + position.z) as i64,
                    },
                    children: Option::Some(Box::new(octants_pushed(pushed_stored, self.bounds,
                        self.level, position))),
                    ..self
                }
            }
        } else {
            let ch = self.children.unwrap();
            OctreeNode {
                mass: (self.mass + 1) as i64,
                weighted: IVec3 {
                    x: (self.weighted.x + position.x) as i64,
                    y: (self.weighted.y + position.y) as i64,
                    z: (self.weighted.z + position.z) as i64,
                },
                children: Option::Some(Box::new(octants_pushed(*ch, self.bounds, self.level,
                    position))),
                ..self
            }
        }
    }

    /// A whole build, one insertion after the other.
    pub closed spec fn spec_inserted_all(self, pts: Seq<IVec3>) -> OctreeNode
        decreases pts.len(),
    {
        if pts.len() == 0 {
            self
        } else {
            self.spec_inserted(pts[0]).spec_inserted_all(pts.drop_first())
        }
    }

    /// Creates an empty root. The half-extent must be positive, a multiple
    /// of [`HALF_EXTENT_STEP`], and the cube must fit in the coordinate
    /// range.
    pub fn new(center: IVec3, half_extent: i64) -> (node: OctreeNode)
        requires
            (Bounds { center, half: half_extent }).wf(),
            half_extent as int % HALF_EXTENT_STEP as int == 0,
        ensures
            node == OctreeNode::empty_node((Bounds { center, half: half_extent }), 0),
            node.inv(),
            node.spec_mass() == 0,
            node.spec_weighted() == (0int, 0int, 0int),
            node.spec_bounds() == (Bounds { center, half: half_extent }),
            node.spec_level() == 0,
            node.spec_is_leaf(),
    {
        proof {
            lemma_pow2i_unfold_to_step();
        }
        OctreeNode {
            bounds: Bounds { center, half: half_extent },
            level: 0,
            mass: 0,
            weighted: IVec3 { x: 0, y: 0, z: 0 },
            children: Option::None,
        }
    }

    /// Resets the node to an empty tree over the same cube.
    pub fn clear(&mut self)
        requires
            old(self).inv(),
        ensures
            *final(self) == OctreeNode::empty_node(old(self).spec_bounds(), old(self).spec_level()),
            final(self).inv(),
            final(self).spec_mass() == 0,
            final(self).spec_weighted() == (0int, 0int, 0int),
            final(self).spec_bounds() == old(self).spec_bounds(),
            final(self).spec_level() == old(self).spec_level(),
            final(self).spec_is_leaf(),
    {
        self.children = Option::None;
        self.mass = 0;
        self.weighted = IVec3 { x: 0, y: 0, z: 0 };
    }

    /// Inserts one unit-mass point. Returns `false`, leaving the tree
    /// unchanged, when the point lies outside this node's cube; otherwise
    /// the point joins the aggregate and the mass and weighted sums grow
    /// exactly by the point's contribution.
    #[verifier::rlimit(100)]
    pub fn insert(&mut self, position: IVec3) -> (r: bool)
        requires
            old(self).inv(),
            old(self).spec_mass() + 1 <= TOTAL_MASS_LIMIT,
        ensures
            final(self).inv(),
            r == old(self).spec_bounds().covers(position),
            final(self).spec_bounds() == old(self).spec_bounds(),
            final(self).spec_level() == old(self).spec_level(),
            final(self).spec_mass() == old(self).spec_mass() + (if r { 1int } else { 0int }),
            final(self).spec_weighted().0 == old(self).spec_weighted().0 + (if r { position.x as int } else { 0int }),
            final(self).spec_weighted().1 == old(self).spec_weighted().1 + (if r { position.y as int } else { 0int }),
            final(self).spec_weighted().2 == old(self).spec_weighted().2 + (if r { position.z as int } else { 0int }),
            r ==> *final(self) == old(self).spec_inserted(position),
            !r ==> *final(self) == *old(self),
        decreases MAX_DEPTH - old(self).spec_level(), 1int,
    {
        if !self.bounds.contains(position) {
            return false;
        }
        if self.level >= MAX_DEPTH {
            // Depth cap: merge into the aggregate held in place.
            proof {
                lemma_weighted_extend(self.mass as int, self.weighted.x as int,
                    self.bounds.center.x - self.bounds.half,
                    self.bounds.center.x + self.bounds.half, position.x as int);
                lemma_weighted_extend(self.mass as int, self.weighted.y as int,
                    self.bounds.center.y - self.bounds.half,
                    self.bounds.center.y + self.bounds.half, position.y as int);
                lemma_weighted_extend(self.mass as int, self.weighted.z as int,
                    self.bounds.center.z - self.bounds.half,
                    self.bounds.center.z + self.bounds.half, position.z as int);
                lemma_weighted_mag(self.mass as int, self.weighted, self.bounds);
            }
            self.mass = self.mass + 1;
            self.weighted = IVec3 {
                x: self.weighted.x + position.x,
                y: self.weighted.y + position.y,
                z: self.weighted.z + position.z,
            };
            assert(in_weighted_box(self.mass as int, self.weighted, self.bounds));
            assert(self.inv());
            assert(*self == old(self).spec_inserted(position));
            return true;
        }
        if self.children.is_none() {
            if self.mass == 0 {
                // Empty leaf: store the point directly.
                proof {
                    lemma_weighted_zero(self.weighted, self.bounds);
                }
                self.mass = 1;
                self.weighted = position;
                proof {
                    assert(in_weighted_box(1, position, self.bounds)) by (nonlinear_arith)
                        requires
                            self.bounds.center.x - self.bounds.half <= position.x
                                <= self.bounds.center.x + self.bounds.half,
                            self.bounds.center.y - self.bounds.half <= position.y
                                <= self.bounds.center.y + self.bounds.half,
                            self.bounds.center.z - self.bounds.half <= position.z
                                <= self.bounds.center.z + self.bounds.half,
                    ;
                }
                assert(self.inv());
                assert(*self == old(self).spec_inserted(position));
                return true;
            }
            // Occupied leaf: subdivide, then push the stored point down.
            let stored = self.weighted;
            proof {
                lemma_weighted_single(stored, self.bounds);
            }
            self.subdivide();
            proof {
                lemma_fresh_octants_inv(*self.children.unwrap(), self.bounds, self.level);
                assert(*self.children.unwrap() == fresh_octants(self.bounds, self.level));
            }
            self.push_into_children(stored);
        }
        let ghost base = *self;
        proof {
            if old(self).children is None {
                assert(base == (OctreeNode {
                    children: Option::Some(Box::new(octants_pushed(fresh_octants(
                        old(self).bounds, old(self).level), old(self).bounds, old(self).level,
                        old(self).weighted))),
                    ..*old(self)
                }));
            } else {
                assert(base == *old(self));
            }
        }
        // Interior node: fold the new point into the running aggregate,
        // then insert it into the child whose octant contains it.
        proof {
            lemma_weighted_extend(self.mass as int, self.weighted.x as int,
                self.bounds.center.x - self.bounds.half, self.bounds.center.x + self.bounds.half,
                position.x as int);
            lemma_weighted_extend(self.mass as int, self.weighted.y as int,
                self.bounds.center.y - self.bounds.half, self.bounds.center.y + self.bounds.half,
                position.y as int);
            lemma_weighted_extend(self.mass as int, self.weighted.z as int,
                self.bounds.center.z - self.bounds.half, self.bounds.center.z + self.bounds.half,
                position.z as int);
            lemma_weighted_mag(self.mass as int, self.weighted, self.bounds);
        }
        self.mass = self.mass + 1;
        self.weighted = IVec3 {
            x: self.weighted.x + position.x,
            y: self.weighted.y + position.y,
            z: self.weighted.z + position.z,
        };
        self.push_into_children(position);
        proof {
            assert(sum_mass(*self.children.unwrap()) == self.mass as int);
            assert(self.inv());
            assert(*self == (OctreeNode {
                children: Option::Some(Box::new(octants_pushed(*base.children.unwrap(),
                    old(self).bounds, old(self).level, position))),
                mass: (base.mass + 1) as i64,
                weighted: (IVec3 {
                    x: (base.weighted.x + position.x) as i64,
                    y: (base.weighted.y + position.y) as i64,
                    z: (base.weighted.z + position.z) as i64,
                }),
                ..base
            }));
            assert(*self == old(self).spec_inserted(position));
        }
        true
    }

    /// Inserts a covered point into the child whose octant holds it,
    /// leaving this node's own running aggregate untouched.
    #[verifier::rlimit(100)]
    fn push_into_children(&mut self, q: IVec3)
        requires
            old(self).bounds.wf(),
            old(self).level < MAX_DEPTH,
            (old(self).bounds.half as int) % pow2i((MAX_DEPTH - old(self).level) as nat) == 0,
            old(self).bounds.covers(q),
            old(self).children is Some,
            octants_inv(*old(self).children.unwrap(), old(self).bounds, old(self).level),
            sum_mass(*old(self).children.unwrap()) + 1 <= TOTAL_MASS_LIMIT,
        ensures
            *final(self) == (OctreeNode {
                children: Option::Some(Box::new(octants_pushed(*old(self).children.unwrap(),
                    old(self).bounds, old(self).level, q))),
                ..*old(self)
            }),
            final(self).children is Some,
            octants_inv(*final(self).children.unwrap(), old(self).bounds, old(self).level),
            sum_mass(*final(self).children.unwrap()) == sum_mass(*old(self).children.unwrap())
                + 1,
            sum_wx(*final(self).children.unwrap()) == sum_wx(*old(self).children.unwrap())
                + q.x,
            sum_wy(*final(self).children.unwrap()) == sum_wy(*old(self).children.unwrap())
                + q.y,
            sum_wz(*final(self).children.unwrap()) == sum_wz(*old(self).children.unwrap())
                + q.z,
        decreases MAX_DEPTH - old(self).spec_level(), 0int,
    {
        let oct = self.bounds.octant(q);
        proof {
            lemma_octant_divisibility(self.bounds, oct as int, self.level);
            lemma_octant_covers(self.bounds, q);
            lemma_octants_masses(*self.children.unwrap(), self.bounds, self.level);
        }
        let sunk;
        if let Some(ch) = &mut self.children {
            sunk = match oct {
                0 => ch.c0.insert(q),
                1 => ch.c1.insert(q),
                2 => ch.c2.insert(q),
                3 => ch.c3.insert(q),
                4 => ch.c4.insert(q),
                5 => ch.c5.insert(q),
                6 => ch.c6.insert(q),
                _ => ch.c7.insert(q),
            };
        } else {
            sunk = false;
        }
        assert(sunk);
        proof {
            if oct == 0 {
                assert(*self.children.unwrap() == (Octants {
                    c0: old(self).children.unwrap().c0.spec_inserted(q),
                    ..*old(self).children.unwrap()
                }));
            }
            if oct == 1 {
                assert(*self.children.unwrap() == (Octants {
                    c1: old(self).children.unwrap().c1.spec_inserted(q),
                    ..*old(self).children.unwrap()
                }));
            }
            if oct == 2 {
                assert(*self.children.unwrap() == (Octants {
                    c2: old(self).children.unwrap().c2.spec_inserted(q),
                    ..*old(self).children.unwrap()
                }));
            }
            if oct == 3 {
                assert(*self.children.unwrap() == (Octants {
                    c3: old(self).children.unwrap().c3.spec_inserted(q),
                    ..*old(self).children.unwrap()
                }));
            }
            if oct == 4 {
                assert(*self.children.unwrap() == (Octants {
                    c4: old(self).children.unwrap().c4.spec_inserted(q),
                    ..*old(self).children.unwrap()
                }));
            }
            if oct == 5 {
                assert(*self.children.unwrap() == (Octants {
                    c5: old(self).children.unwrap().c5.spec_inserted(q),
                    ..*old(self).children.unwrap()
                }));
            }
            if oct == 6 {
                assert(*self.children.unwrap() == (Octants {
                    c6: old(self).children.unwrap().c6.spec_inserted(q),
                    ..*old(self).children.unwrap()
                }));
            }
            if oct == 7 {
                assert(*self.children.unwrap() == (Octants {
                    c7: old(self).children.unwrap().c7.spec_inserted(q),
                    ..*old(self).children.unwrap()
                }));
            }
            assert(*self.children.unwrap() == octants_pushed(*old(self).children.unwrap(),
                old(self).bounds, old(self).level, q));
        }
    }

    /// Splits the cube into its eight octants, each an empty child one
    /// level deeper.
    fn subdivide(&mut self)
        requires
            old(self).inv(),
            old(self).children is None,
            old(self).level < MAX_DEPTH,
        ensures
            final(self).bounds == old(self).bounds,
            final(self).level == old(self).level,
            final(self).mass == old(self).mass,
            final(self).weighted == old(self).weighted,
            final(self).children is Some,
            octants_fresh(*final(self).children.unwrap(), old(self).bounds, old(self).level),
    {
        let b = self.bounds;
        let lv = self.level;
        proof {
            assert forall|i: int| 0 <= i < 8 implies b.octant_box(i).wf() && b.octant_box(i).half
                as int % pow2i((MAX_DEPTH - (lv + 1)) as nat) == 0 by {
                lemma_octant_divisibility(b, i, lv);
                lemma_octant_box_wf(b, i);
            };
            lemma_octant_divisibility(b, 0, lv);
        }
        self.children = Some(Box::new(Octants {
            c0: Self::fresh_child(b.make_octant(0), lv + 1),
            c1: Self::fresh_child(b.make_octant(1), lv + 1),
            c2: Self::fresh_child(b.make_octant(2), lv + 1),
            c3: Self::fresh_child(b.make_octant(3), lv + 1),
            c4: Self::fresh_child(b.make_octant(4), lv + 1),
            c5: Self::fresh_child(b.make_octant(5), lv + 1),
            c6: Self::fresh_child(b.make_octant(6), lv + 1),
            c7: Self::fresh_child(b.make_octant(7), lv + 1),
        }));
    }

    /// An empty child node over an already-validated cube.
    fn fresh_child(b: Bounds, level: u32) -> (node: OctreeNode)
        requires
            b.wf(),
            level <= MAX_DEPTH,
            b.half as int % pow2i((MAX_DEPTH - level) as nat) == 0,
        ensures
            node == OctreeNode::empty_node(b, level),
            node.inv(),
    {
        OctreeNode {
            bounds: b,
            level,
            mass: 0,
            weighted: IVec3 { x: 0, y: 0, z: 0 },
            children: Option::None,
        }
    }

    /// Exact force this subtree contributes on a query point of mass `mq`:
    /// the recursive theta descent, treating a subtree as one point mass as
    /// soon as it looks small enough (or is a leaf).
    pub closed spec fn force_on(self, q: IVec3, mq: int, k: int, tn: int, td: int) -> (
        int,
        int,
        int,
    )
        decreases self,
    {
        if self.mass == 0 {
            (0, 0, 0)
        } else if is_far(self.bounds, q, tn, td) || self.children is None {
            pair_force(q, mq, self.com_x(), self.com_y(), self.com_z(), self.mass as int, k)
        } else {
            octants_force(*self.children.unwrap(), q, mq, k, tn, td)
        }
    }

    /// Number of tree nodes a force query visits.
    pub closed spec fn visits(self, q: IVec3, tn: int, td: int) -> int
        decreases self,
    {
        if self.mass == 0 || is_far(self.bounds, q, tn, td) || self.children is None {
            1
        } else {
            let ch = self.children.unwrap();
            1 + ch.c0.visits(q, tn, td) + ch.c1.visits(q, tn, td) + ch.c2.visits(q, tn, td)
                + ch.c3.visits(q, tn, td) + ch.c4.visits(q, tn, td) + ch.c5.visits(q, tn, td)
                + ch.c6.visits(q, tn, td) + ch.c7.visits(q, tn, td)
        }
    }

    /// The force a subtree contributes is bounded by `k * mq` times its
    /// mass: contributions of disjoint subtrees sum without surprises.
    #[verifier::rlimit(100)]
    pub proof fn lemma_force_on_bound(self, q: IVec3, mq: int, k: int, tn: int, td: int)
        requires
            self.inv(),
            0 <= mq,
            0 <= k,
        ensures
            abs_i(self.force_on(q, mq, k, tn, td).0) <= (k * mq) * self.spec_mass(),
            abs_i(self.force_on(q, mq, k, tn, td).1) <= (k * mq) * self.spec_mass(),
            abs_i(self.force_on(q, mq, k, tn, td).2) <= (k * mq) * self.spec_mass(),
            (k * mq) * self.spec_mass() >= 0,
        decreases self, 1int,
    {
        let t = k * mq;
        assert(k * mq >= 0) by (nonlinear_arith)
            requires
                0 <= mq,
                0 <= k,
        ;
        assert(t * self.spec_mass() >= 0) by (nonlinear_arith)
            requires
                t >= 0,
                0 <= self.spec_mass(),
        ;
        if self.mass == 0 {
            assert(t * self.spec_mass() == 0) by (nonlinear_arith)
                requires
                    self.spec_mass() == 0,
            ;
            assert(self.force_on(q, mq, k, tn, td).0 == 0);
            assert(abs_i(self.force_on(q, mq, k, tn, td).0) <= (k * mq) * self.spec_mass());
        } else if is_far(self.bounds, q, tn, td) || self.children is None {
            lemma_pair_force_bound(q, mq, self.com_x(), self.com_y(), self.com_z(),
                self.mass as int, k);
        } else {
            lemma_octants_force_bound(*self.children.unwrap(), q, mq, k, tn, td);
        }
    }

    /// Accumulates into `force` the approximate repulsion this subtree
    /// exerts on a unit-mass point at `point`.
    #[verifier::rlimit(100)]
    pub fn get_force(&self, point: IVec3, coeff: i64, theta_num: i64, theta_den: i64,
        force: &mut Force3)
        requires
            self.inv(),
            point.bounded(COORD_LIMIT as int),
            0 <= coeff <= COEFF_LIMIT,
            0 <= theta_num <= THETA_LIMIT,
            1 <= theta_den <= THETA_LIMIT,
            old(force).x + coeff * self.spec_mass() <= i128::MAX,
            old(force).x - coeff * self.spec_mass() >= i128::MIN,
            old(force).y + coeff * self.spec_mass() <= i128::MAX,
            old(force).y - coeff * self.spec_mass() >= i128::MIN,
            old(force).z + coeff * self.spec_mass() <= i128::MAX,
            old(force).z - coeff * self.spec_mass() >= i128::MIN,
        ensures
            final(force).x == old(force).x + self.force_on(point, 1, coeff as int,
                theta_num as int, theta_den as int).0,
            final(force).y == old(force).y + self.force_on(point, 1, coeff as int,
                theta_num as int, theta_den as int).1,
            final(force).z == old(force).z + self.force_on(point, 1, coeff as int,
                theta_num as int, theta_den as int).2,
        decreases *self, 1int,
    {
        proof {
            assert((coeff as int) * 1 == coeff as int);
        }
        if self.mass == 0 {
            return ;
        }
        let far = far_test(&self.bounds, point, theta_num, theta_den);
        if far || self.children.is_none() {
            proof {
                lemma_weighted_mag(self.mass as int, self.weighted, self.bounds);
                crate::numeric::lemma_div_trunc_range(self.weighted.x as int, self.mass as int,
                    self.bounds.center.x - self.bounds.half,
                    self.bounds.center.x + self.bounds.half);
                crate::numeric::lemma_div_trunc_range(self.weighted.y as int, self.mass as int,
                    self.bounds.center.y - self.bounds.half,
                    self.bounds.center.y + self.bounds.half);
                crate::numeric::lemma_div_trunc_range(self.weighted.z as int, self.mass as int,
                    self.bounds.center.z - self.bounds.half,
                    self.bounds.center.z + self.bounds.half);
            }
            let com = IVec3 {
                x: div_trunc_i64(self.weighted.x, self.mass),
                y: div_trunc_i64(self.weighted.y, self.mass),
                z: div_trunc_i64(self.weighted.z, self.mass),
            };
            accumulate_pair(point, 1, com, self.mass, coeff, force);
            return ;
        }
        if let Some(ch) = &self.children {
            Self::descend_children(ch, point, coeff, theta_num, theta_den, force,
                Ghost(self.mass as int));
        }
    }

    /// Descends into all eight children, accumulating their contributions.
    #[verifier::rlimit(100)]
    fn descend_children(ch: &Octants, point: IVec3, coeff: i64, theta_num: i64, theta_den: i64,
        force: &mut Force3, gmass: Ghost<int>)
        requires
            ch.c0.inv() && ch.c1.inv() && ch.c2.inv() && ch.c3.inv(),
            ch.c4.inv() && ch.c5.inv() && ch.c6.inv() && ch.c7.inv(),
            gmass@ == sum_mass(*ch),
            gmass@ <= TOTAL_MASS_LIMIT,
            point.bounded(COORD_LIMIT as int),
            0 <= coeff <= COEFF_LIMIT,
            0 <= theta_num <= THETA_LIMIT,
            1 <= theta_den <= THETA_LIMIT,
            old(force).x + coeff * gmass@ <= i128::MAX,
            old(force).x - coeff * gmass@ >= i128::MIN,
            old(force).y + coeff * gmass@ <= i128::MAX,
            old(force).y - coeff * gmass@ >= i128::MIN,
            old(force).z + coeff * gmass@ <= i128::MAX,
            old(force).z - coeff * gmass@ >= i128::MIN,
        ensures
            final(force).x == old(force).x + octants_force(*ch, point, 1, coeff as int,
                theta_num as int, theta_den as int).0,
            final(force).y == old(force).y + octants_force(*ch, point, 1, coeff as int,
                theta_num as int, theta_den as int).1,
            final(force).z == old(force).z + octants_force(*ch, point, 1, coeff as int,
                theta_num as int, theta_den as int).2,
        decreases *ch, 2int,
    {
        proof {
            let tn = theta_num as int;
            let td = theta_den as int;
            assert((coeff as int) * 1 == coeff as int);
            ch.c0.lemma_force_on_bound(point, 1, coeff as int, tn, td);
            ch.c1.lemma_force_on_bound(point, 1, coeff as int, tn, td);
            ch.c2.lemma_force_on_bound(point, 1, coeff as int, tn, td);
            ch.c3.lemma_force_on_bound(point, 1, coeff as int, tn, td);
            ch.c4.lemma_force_on_bound(point, 1, coeff as int, tn, td);
            ch.c5.lemma_force_on_bound(point, 1, coeff as int, tn, td);
            ch.c6.lemma_force_on_bound(point, 1, coeff as int, tn, td);
            ch.c7.lemma_force_on_bound(point, 1, coeff as int, tn, td);
            assert(coeff * (ch.c0.mass as int) + coeff * (ch.c1.mass as int) + coeff * (
            ch.c2.mass as int) + coeff * (ch.c3.mass as int) + coeff * (ch.c4.mass as int) + coeff
                * (ch.c5.mass as int) + coeff * (ch.c6.mass as int) + coeff * (ch.c7.mass as int)
                == coeff * sum_mass(*ch)) by (nonlinear_arith);
            assert(coeff * (ch.c0.spec_mass() + ch.c1.spec_mass() + ch.c2.spec_mass()
                + ch.c3.spec_mass()) == coeff * ch.c0.spec_mass() + coeff * ch.c1.spec_mass()
                + coeff * ch.c2.spec_mass() + coeff * ch.c3.spec_mass()) by (nonlinear_arith);
            assert(coeff * (ch.c4.spec_mass() + ch.c5.spec_mass() + ch.c6.spec_mass()
                + ch.c7.spec_mass()) == coeff * ch.c4.spec_mass() + coeff * ch.c5.spec_mass()
                + coeff * ch.c6.spec_mass() + coeff * ch.c7.spec_mass()) by (nonlinear_arith);
        }
        Self::descend_low(ch, point, coeff, theta_num, theta_den, force);
        Self::descend_high(ch, point, coeff, theta_num, theta_den, force);
    }

    /// Contributions of the first four children.
    #[verifier::rlimit(100)]
    fn descend_low(ch: &Octants, point: IVec3, coeff: i64, theta_num: i64, theta_den: i64,
        force: &mut Force3)
        requires
            ch.c0.inv() && ch.c1.inv() && ch.c2.inv() && ch.c3.inv(),
            point.bounded(COORD_LIMIT as int),
            0 <= coeff <= COEFF_LIMIT,
            0 <= theta_num <= THETA_LIMIT,
            1 <= theta_den <= THETA_LIMIT,
            old(force).x + coeff * (ch.c0.spec_mass() + ch.c1.spec_mass() + ch.c2.spec_mass()
                + ch.c3.spec_mass()) <= i128::MAX,
            old(force).x - coeff * (ch.c0.spec_mass() + ch.c1.spec_mass() + ch.c2.spec_mass()
                + ch.c3.spec_mass()) >= i128::MIN,
            old(force).y + coeff * (ch.c0.spec_mass() + ch.c1.spec_mass() + ch.c2.spec_mass()
                + ch.c3.spec_mass()) <= i128::MAX,
            old(force).y - coeff * (ch.c0.spec_mass() + ch.c1.spec_mass() + ch.c2.spec_mass()
                + ch.c3.spec_mass()) >= i128::MIN,
            old(force).z + coeff * (ch.c0.spec_mass() + ch.c1.spec_mass() + ch.c2.spec_mass()
                + ch.c3.spec_mass()) <= i128::MAX,
            old(force).z - coeff * (ch.c0.spec_mass() + ch.c1.spec_mass() + ch.c2.spec_mass()
                + ch.c3.spec_mass()) >= i128::MIN,
        ensures
            final(force).x == old(force).x + ch.c0.force_on(point, 1, coeff as int,
                theta_num as int, theta_den as int).0 + ch.c1.force_on(point, 1, coeff as int,
                theta_num as int, theta_den as int).0 + ch.c2.force_on(point, 1, coeff as int,
                theta_num as int, theta_den as int).0 + ch.c3.force_on(point, 1, coeff as int,
                theta_num as int, theta_den as int).0,
            final(force).y == old(force).y + ch.c0.force_on(point, 1, coeff as int,
                theta_num as int, theta_den as int).1 + ch.c1.force_on(point, 1, coeff as int,
                theta_num as int, theta_den as int).1 + ch.c2.force_on(point, 1, coeff as int,
                theta_num as int, theta_den as int).1 + ch.c3.force_on(point, 1, coeff as int,
                theta_num as int, theta_den as int).1,
            final(force).z == old(force).z + ch.c0.force_on(point, 1, coeff as int,
                theta_num as int, theta_den as int).2 + ch.c1.force_on(point, 1, coeff as int,
                theta_num as int, theta_den as int).2 + ch.c2.force_on(point, 1, coeff as int,
                theta_num as int, theta_den as int).2 + ch.c3.force_on(point, 1, coeff as int,
                theta_num as int, theta_den as int).2,
        decreases *ch, 0int,
    {
        proof {
            let tn = theta_num as int;
            let td = theta_den as int;
            assert((coeff as int) * 1 == coeff as int);
            ch.c0.lemma_force_on_bound(point, 1, coeff as int, tn, td);
            ch.c1.lemma_force_on_bound(point, 1, coeff as int, tn, td);
            ch.c2.lemma_force_on_bound(point, 1, coeff as int, tn, td);
            ch.c3.lemma_force_on_bound(point, 1, coeff as int, tn, td);
            assert(coeff * (ch.c0.spec_mass() + ch.c1.spec_mass() + ch.c2.spec_mass()
                + ch.c3.spec_mass()) == coeff * ch.c0.spec_mass() + coeff
                * ch.c1.spec_mass() + coeff * ch.c2.spec_mass() + coeff
                * ch.c3.spec_mass()) by (nonlinear_arith);
        }
        ch.c0.get_force(point, coeff, theta_num, theta_den, force);
        ch.c1.get_force(point, coeff, theta_num, theta_den, force);
        ch.c2.get_force(point, coeff, theta_num, theta_den, force);
        ch.c3.get_force(point, coeff, theta_num, theta_den, force);
    }

    /// Contributions of the last four children.
    #[verifier::rlimit(100)]
    fn descend_high(ch: &Octants, point: IVec3, coeff: i64, theta_num: i64, theta_den: i64,
        force: &mut Force3)
        requires
            ch.c4.inv() && ch.c5.inv() && ch.c6.inv() && ch.c7.inv(),
            point.bounded(COORD_LIMIT as int),
            0 <= coeff <= COEFF_LIMIT,
            0 <= theta_num <= THETA_LIMIT,
            1 <= theta_den <= THETA_LIMIT,
            old(force).x + coeff * (ch.c4.spec_mass() + ch.c5.spec_mass() + ch.c6.spec_mass()
                + ch.c7.spec_mass()) <= i128::MAX,
            old(force).x - coeff * (ch.c4.spec_mass() + ch.c5.spec_mass() + ch.c6.spec_mass()
                + ch.c7.spec_mass()) >= i128::MIN,
            old(force).y + coeff * (ch.c4.spec_mass() + ch.c5.spec_mass() + ch.c6.spec_mass()
                + ch.c7.spec_mass()) <= i128::MAX,
            old(force).y - coeff * (ch.c4.spec_mass() + ch.c5.spec_mass() + ch.c6.spec_mass()
                + ch.c7.spec_mass()) >= i128::MIN,
            old(force).z + coeff * (ch.c4.spec_mass() + ch.c5.spec_mass() + ch.c6.spec_mass()
                + ch.c7.spec_mass()) <= i128::MAX,
            old(force).z - coeff * (ch.c4.spec_mass() + ch.c5.spec_mass() + ch.c6.spec_mass()
                + ch.c7.spec_mass()) >= i128::MIN,
        ensures
            final(force).x == old(force).x + ch.c4.force_on(point, 1, coeff as int,
                theta_num as int, theta_den as int).0 + ch.c5.force_on(point, 1, coeff as int,
                theta_num as int, theta_den as int).0 + ch.c6.force_on(point, 1, coeff as int,
                theta_num as int, theta_den as int).0 + ch.c7.force_on(point, 1, coeff as int,
                theta_num as int, theta_den as int).0,
            final(force).y == old(force).y + ch.c4.force_on(point, 1, coeff as int,
                theta_num as int, theta_den as int).1 + ch.c5.force_on(point, 1, coeff as int,
                theta_num as int, theta_den as int).1 + ch.c6.force_on(point, 1, coeff as int,
                theta_num as int, theta_den as int).1 + ch.c7.force_on(point, 1, coeff as int,
                theta_num as int, theta_den as int).1,
            final(force).z == old(force).z + ch.c4.force_on(point, 1, coeff as int,
                theta_num as int, theta_den as int).2 + ch.c5.force_on(point, 1, coeff as int,
                theta_num as int, theta_den as int).2 + ch.c6.force_on(point, 1, coeff as int,
                theta_num as int, theta_den as int).2 + ch.c7.force_on(point, 1, coeff as int,
                theta_num as int, theta_den as int).2,
        decreases *ch, 0int,
    {
        proof {
            let tn = theta_num as int;
            let td = theta_den as int;
            assert((coeff as int) * 1 == coeff as int);
            ch.c4.lemma_force_on_bound(point, 1, coeff as int, tn, td);
            ch.c5.lemma_force_on_bound(point, 1, coeff as int, tn, td);
            ch.c6.lemma_force_on_bound(point, 1, coeff as int, tn, td);
            ch.c7.lemma_force_on_bound(point, 1, coeff as int, tn, td);
            assert(coeff * (ch.c4.spec_mass() + ch.c5.spec_mass() + ch.c6.spec_mass()
                + ch.c7.spec_mass()) == coeff * ch.c4.spec_mass() + coeff
                * ch.c5.spec_mass() + coeff * ch.c6.spec_mass() + coeff
                * ch.c7.spec_mass()) by (nonlinear_arith);
        }
        ch.c4.get_force(point, coeff, theta_num, theta_den, force);
        ch.c5.get_force(point, coeff, theta_num, theta_den, force);
        ch.c6.get_force(point, coeff, theta_num, theta_den, force);
        ch.c7.get_force(point, coeff, theta_num, theta_den, force);
    }

    /// The multiset of occupied-leaf aggregates under this node, each a
    /// point mass at its derived center of mass, in fixed child order.
    pub closed spec fn aggregates(self) -> Seq<PointMass>
        decreases self,
    {
        if self.mass == 0 {
            Seq::empty()
        } else if self.children is None {
            seq![PointMass { x: self.com_x(), y: self.com_y(), z: self.com_z(),
                mass: self.mass as int }]
        } else {
            let ch = self.children.unwrap();
            ch.c0.aggregates() + ch.c1.aggregates() + ch.c2.aggregates() + ch.c3.aggregates()
                + ch.c4.aggregates() + ch.c5.aggregates() + ch.c6.aggregates()
                + ch.c7.aggregates()
        }
    }

    /// Exactness oracle: with theta zero the acceptance test never fires,
    /// the descent reaches every occupied leaf, and the tree force equals
    /// the exact pairwise sum over the leaf aggregates.
    #[verifier::rlimit(100)]
    pub proof fn lemma_theta_zero_exact(self, q: IVec3, mq: int, k: int, td: int)
        requires
            self.inv(),
            1 <= td,
        ensures
            self.force_on(q, mq, k, 0, td) == pairwise_force(self.aggregates(), q, mq, k),
        decreases self,
    {
        if self.mass == 0 {
            assert(self.aggregates() =~= Seq::<PointMass>::empty());
        } else {
            assert(!is_far(self.bounds, q, 0, td)) by {
                assert(2 * (self.bounds.half as int) * td >= 2) by (nonlinear_arith)
                    requires
                        self.bounds.half >= 1,
                        td >= 1,
                ;
                let a = 2 * (self.bounds.half as int) * td;
                assert(a * a > 0) by (nonlinear_arith)
                    requires
                        a >= 2,
                ;
                assert(0 * 0 * dist_sq(self.bounds.center, q) == 0) by (nonlinear_arith);
            };
            if self.children is None {
                let agg = self.aggregates();
                assert(agg.drop_first() =~= Seq::<PointMass>::empty());
                assert(pairwise_force(agg.drop_first(), q, mq, k) == (0int, 0int, 0int));
            } else {
                let ch = *self.children.unwrap();
                ch.c0.lemma_theta_zero_exact(q, mq, k, td);
                ch.c1.lemma_theta_zero_exact(q, mq, k, td);
                ch.c2.lemma_theta_zero_exact(q, mq, k, td);
                ch.c3.lemma_theta_zero_exact(q, mq, k, td);
                ch.c4.lemma_theta_zero_exact(q, mq, k, td);
                ch.c5.lemma_theta_zero_exact(q, mq, k, td);
                ch.c6.lemma_theta_zero_exact(q, mq, k, td);
                ch.c7.lemma_theta_zero_exact(q, mq, k, td);
                let a0 = ch.c0.aggregates();
                let a1 = ch.c1.aggregates();
                let a2 = ch.c2.aggregates();
                let a3 = ch.c3.aggregates();
                let a4 = ch.c4.aggregates();
                let a5 = ch.c5.aggregates();
                let a6 = ch.c6.aggregates();
                let a7 = ch.c7.aggregates();
                lemma_pairwise_concat(a0, a1, q, mq, k);
                lemma_pairwise_concat(a0 + a1, a2, q, mq, k);
                lemma_pairwise_concat(a0 + a1 + a2, a3, q, mq, k);
                lemma_pairwise_concat(a0 + a1 + a2 + a3, a4, q, mq, k);
                lemma_pairwise_concat(a0 + a1 + a2 + a3 + a4, a5, q, mq, k);
                lemma_pairwise_concat(a0 + a1 + a2 + a3 + a4 + a5, a6, q, mq, k);
                lemma_pairwise_concat(a0 + a1 + a2 + a3 + a4 + a5 + a6, a7, q, mq, k);
            }
        }
    }

    /// An upper bound on the nodes a query can visit, from the depth cap.
    pub proof fn lemma_visits_cap(self, q: IVec3, tn: int, td: int)
        requires
            self.inv(),
        ensures
            1 <= self.visits(q, tn, td) <= size_cap((MAX_DEPTH - self.spec_level()) as nat),
        decreases self,
    {
        lemma_size_cap_pos((MAX_DEPTH - self.spec_level()) as nat);
        if self.mass != 0 && !is_far(self.bounds, q, tn, td) && self.children is Some {
            let ch = *self.children.unwrap();
            ch.c0.lemma_visits_cap(q, tn, td);
            ch.c1.lemma_visits_cap(q, tn, td);
            ch.c2.lemma_visits_cap(q, tn, td);
            ch.c3.lemma_visits_cap(q, tn, td);
            ch.c4.lemma_visits_cap(q, tn, td);
            ch.c5.lemma_visits_cap(q, tn, td);
            ch.c6.lemma_visits_cap(q, tn, td);
            ch.c7.lemma_visits_cap(q, tn, td);
        }
    }

    /// Monotone cost in theta: raising the acceptance threshold never makes
    /// a query visit more nodes, whatever the tree and the query point.
    pub proof fn lemma_visits_monotone(self, q: IVec3, tn1: int, td1: int, tn2: int, td2: int)
        requires
            self.inv(),
            0 <= tn1,
            1 <= td1,
            0 <= tn2,
            1 <= td2,
            tn1 * td2 <= tn2 * td1,
        ensures
            self.visits(q, tn2, td2) <= self.visits(q, tn1, td1),
        decreases self,
    {
        if self.mass == 0 {
        } else if is_far(self.bounds, q, tn2, td2) {
            self.lemma_visits_cap(q, tn1, td1);
        } else {
            if is_far(self.bounds, q, tn1, td1) {
                lemma_far_monotone(self.bounds, q, tn1, td1, tn2, td2);
                assert(false);
            }
            if self.children is Some {
                let ch = *self.children.unwrap();
                ch.c0.lemma_visits_monotone(q, tn1, td1, tn2, td2);
                ch.c1.lemma_visits_monotone(q, tn1, td1, tn2, td2);
                ch.c2.lemma_visits_monotone(q, tn1, td1, tn2, td2);
                ch.c3.lemma_visits_monotone(q, tn1, td1, tn2, td2);
                ch.c4.lemma_visits_monotone(q, tn1, td1, tn2, td2);
                ch.c5.lemma_visits_monotone(q, tn1, td1, tn2, td2);
                ch.c6.lemma_visits_monotone(q, tn1, td1, tn2, td2);
                ch.c7.lemma_visits_monotone(q, tn1, td1, tn2, td2);
            }
        }
    }

    /// Counts the nodes a `get_force` query with these parameters visits.
    #[verifier::rlimit(100)]
    pub fn visit_count(&self, point: IVec3, theta_num: i64, theta_den: i64) -> (n: u64)
        requires
            self.inv(),
            point.bounded(COORD_LIMIT as int),
            0 <= theta_num <= THETA_LIMIT,
            1 <= theta_den <= THETA_LIMIT,
        ensures
            n as int == self.visits(point, theta_num as int, theta_den as int),
            1 <= n <= 19_173_961,
        decreases *self,
    {
        proof {
            self.lemma_visits_cap(point, theta_num as int, theta_den as int);
            lemma_size_cap_full();
            lemma_size_cap_mono((MAX_DEPTH - self.spec_level()) as nat, MAX_DEPTH as nat);
        }
        if self.mass == 0 {
            return 1;
        }
        let far = far_test(&self.bounds, point, theta_num, theta_den);
        if far || self.children.is_none() {
            return 1;
        }
        let mut n: u64 = 1;
        if let Some(ch) = &self.children {
            proof {
                ch.c0.lemma_visits_cap(point, theta_num as int, theta_den as int);
                ch.c1.lemma_visits_cap(point, theta_num as int, theta_den as int);
                ch.c2.lemma_visits_cap(point, theta_num as int, theta_den as int);
                ch.c3.lemma_visits_cap(point, theta_num as int, theta_den as int);
                ch.c4.lemma_visits_cap(point, theta_num as int, theta_den as int);
                ch.c5.lemma_visits_cap(point, theta_num as int, theta_den as int);
                ch.c6.lemma_visits_cap(point, theta_num as int, theta_den as int);
                ch.c7.lemma_visits_cap(point, theta_num as int, theta_den as int);
                lemma_size_cap_mono((MAX_DEPTH - (self.spec_level() + 1)) as nat,
                    MAX_DEPTH as nat);
            }
            n = n + ch.c0.visit_count(point, theta_num, theta_den);
            n = n + ch.c1.visit_count(point, theta_num, theta_den);
            n = n + ch.c2.visit_count(point, theta_num, theta_den);
            n = n + ch.c3.visit_count(point, theta_num, theta_den);
            n = n + ch.c4.visit_count(point, theta_num, theta_den);
            n = n + ch.c5.visit_count(point, theta_num, theta_den);
            n = n + ch.c6.visit_count(point, theta_num, theta_den);
            n = n + ch.c7.visit_count(point, theta_num, theta_den);
        }
        n
    }

    /// Builds the tree from a whole point set, one insertion per point.
    ///
    /// Conservation of mass: after any such build the root's total mass has
    /// grown by exactly the number of covered points, one unit per inserted
    /// point, whatever subdivision pattern arose.
    pub fn insert_all(&mut self, points: &Vec<IVec3>) -> (added: usize)
        requires
            old(self).inv(),
            old(self).spec_mass() + points@.len() <= TOTAL_MASS_LIMIT,
        ensures
            final(self).inv(),
            final(self).spec_bounds() == old(self).spec_bounds(),
            final(self).spec_level() == old(self).spec_level(),
            added as int == covered_count(old(self).spec_bounds(), points@),
            final(self).spec_mass() == old(self).spec_mass() + covered_count(
                old(self).spec_bounds(), points@),
            *final(self) == old(self).spec_inserted_all(points@),
    {
        let mut added: usize = 0;
        let mut i: usize = 0;
        proof {
            assert(points@.skip(0) =~= points@);
        }
        while i < points.len()
            invariant
                self.inv(),
                self.spec_bounds() == old(self).spec_bounds(),
                self.spec_level() == old(self).spec_level(),
                i <= points@.len(),
                added <= i,
                added as int + covered_count(self.spec_bounds(), points@.skip(i as int))
                    == covered_count(self.spec_bounds(), points@),
                old(self).spec_inserted_all(points@) == self.spec_inserted_all(points@.skip(
                    i as int)),
                self.spec_mass() + covered_count(self.spec_bounds(), points@.skip(i as int))
                    == old(self).spec_mass() + covered_count(self.spec_bounds(), points@),
                self.spec_mass() + (points@.len() - i) <= TOTAL_MASS_LIMIT,
            decreases points@.len() - i,
        {
            proof {
                lemma_covered_count_nonneg(self.spec_bounds(), points@.skip(i as int + 1));
                assert(points@.skip(i as int).drop_first() =~= points@.skip(i as int + 1));
                lemma_covered_count_nonneg(self.spec_bounds(), points@.skip(i as int));
            }
            let p = points[i];
            let ghost before = *self;
            let r = self.insert(p);
            proof {
                if !r {
                    assert(*self == before.spec_inserted(p));
                }
            }
            if r {
                added = added + 1;
            }
            i = i + 1;
        }
        proof {
            assert(points@.skip(points@.len() as int) =~= Seq::<IVec3>::empty());
        }
        added
    }

    /// A covered point inserted into an empty node below the depth cap is
    /// stored directly: the node stays a leaf, with exactly that one
    /// unit-mass point as its aggregate.
    pub proof fn lemma_insert_into_empty(b: Bounds, level: u32, p: IVec3)
        requires
            b.covers(p),
        ensures
            OctreeNode::empty_node(b, level).spec_inserted(p).spec_is_leaf(),
            OctreeNode::empty_node(b, level).spec_inserted(p).spec_mass() == 1,
            OctreeNode::empty_node(b, level).spec_inserted(p).spec_weighted() == (p.x as int,
                p.y as int, p.z as int),
            OctreeNode::empty_node(b, level).spec_inserted(p).spec_bounds() == b,
            OctreeNode::empty_node(b, level).spec_inserted(p).spec_level() == level,
    {
    }

    /// At the depth cap a covered point merges into the aggregate held in
    /// place: the mass and weighted sum grow by the point's contribution
    /// and no children are ever created.
    pub proof fn lemma_insert_at_cap(self, p: IVec3)
        requires
            self.inv(),
            self.spec_bounds().covers(p),
            self.spec_level() >= MAX_DEPTH,
            self.spec_mass() + 1 <= TOTAL_MASS_LIMIT,
        ensures
            self.spec_inserted(p).spec_is_leaf() == self.spec_is_leaf(),
            self.spec_inserted(p).spec_mass() == self.spec_mass() + 1,
            self.spec_inserted(p).spec_weighted() == (self.spec_weighted().0 + p.x,
                self.spec_weighted().1 + p.y, self.spec_weighted().2 + p.z),
            self.spec_inserted(p).spec_bounds() == self.spec_bounds(),
            self.spec_inserted(p).spec_level() == self.spec_level(),
    {
        lemma_weighted_mag(self.mass as int, self.weighted, self.bounds);
    }

    /// Idempotent rebuild: a cleared root rebuilt from a point sequence is
    /// exactly the tree a fresh root over the same cube would build, so
    /// the rebuild's aggregates and force answers agree with the original
    /// build's, bit for bit.
    pub proof fn lemma_rebuild_identical(self, center: IVec3, half_extent: i64, pts: Seq<IVec3>)
        requires
            self.spec_bounds() == (Bounds { center, half: half_extent }),
            self.spec_level() == 0,
        ensures
            OctreeNode::empty_node(self.spec_bounds(), self.spec_level()).spec_inserted_all(pts)
                == OctreeNode::empty_node((Bounds { center, half: half_extent }),
                0).spec_inserted_all(pts),
    {
    }

    /// The line segments outlining this cell and, recursively, every
    /// descendant cell: twelve cube edges per node, in a fixed order.
    pub closed spec fn mesh_of(self) -> Seq<(IVec3, IVec3)>
        decreases self,
    {
        match self.children {
            Option::None => cube_edges(self.bounds),
            Option::Some(ch) => cube_edges(self.bounds) + ch.c0.mesh_of() + ch.c1.mesh_of()
                + ch.c2.mesh_of() + ch.c3.mesh_of() + ch.c4.mesh_of() + ch.c5.mesh_of()
                + ch.c6.mesh_of() + ch.c7.mesh_of(),
        }
    }

    /// Wireframe export for debugging: every cell boundary as line
    /// segments, recomputed from the current tree state on each call.
    #[verifier::rlimit(100)]
    pub fn mesh_lines(&self) -> (lines: Vec<(IVec3, IVec3)>)
        requires
            self.inv(),
        ensures
            lines@ == self.mesh_of(),
        decreases *self,
    {
        let mut lines: Vec<(IVec3, IVec3)> = self.own_edges();
        if let Some(ch) = &self.children {
            let mut sub = ch.c0.mesh_lines();
            lines.append(&mut sub);
            let mut sub = ch.c1.mesh_lines();
            lines.append(&mut sub);
            let mut sub = ch.c2.mesh_lines();
            lines.append(&mut sub);
            let mut sub = ch.c3.mesh_lines();
            lines.append(&mut sub);
            let mut sub = ch.c4.mesh_lines();
            lines.append(&mut sub);
            let mut sub = ch.c5.mesh_lines();
            lines.append(&mut sub);
            let mut sub = ch.c6.mesh_lines();
            lines.append(&mut sub);
            let mut sub = ch.c7.mesh_lines();
            lines.append(&mut sub);
            proof {
                assert(lines@ =~= self.mesh_of());
            }
        } else {
            proof {
                assert(lines@ =~= self.mesh_of());
            }
        }
        lines
    }

    /// The twelve edges of this node's own cell.
    fn own_edges(&self) -> (lines: Vec<(IVec3, IVec3)>)
        requires
            self.inv(),
        ensures
            lines@ == cube_edges(self.spec_bounds()),
    {
        let cx = self.bounds.center.x;
        let cy = self.bounds.center.y;
        let cz = self.bounds.center.z;
        let h = self.bounds.half;
        let mut lines: Vec<(IVec3, IVec3)> = Vec::new();
        lines.push((IVec3 { x: cx - h, y: cy - h, z: cz - h }, IVec3 { x: cx + h, y: cy - h, z: cz - h }));
        lines.push((IVec3 { x: cx - h, y: cy + h, z: cz - h }, IVec3 { x: cx + h, y: cy + h, z: cz - h }));
        lines.push((IVec3 { x: cx - h, y: cy - h, z: cz + h }, IVec3 { x: cx + h, y: cy - h, z: cz + h }));
        lines.push((IVec3 { x: cx - h, y: cy + h, z: cz + h }, IVec3 { x: cx + h, y: cy + h, z: cz + h }));
        lines.push((IVec3 { x: cx - h, y: cy - h, z: cz - h }, IVec3 { x: cx - h, y: cy + h, z: cz - h }));
        lines.push((IVec3 { x: cx + h, y: cy - h, z: cz - h }, IVec3 { x: cx + h, y: cy + h, z: cz - h }));
        lines.push((IVec3 { x: cx - h, y: cy - h, z: cz + h }, IVec3 { x: cx - h, y: cy + h, z: cz + h }));
        lines.push((IVec3 { x: cx + h, y: cy - h, z: cz + h }, IVec3 { x: cx + h, y: cy + h, z: cz + h }));
        lines.push((IVec3 { x: cx - h, y: cy - h, z: cz - h }, IVec3 { x: cx - h, y: cy - h, z: cz + h }));
        lines.push((IVec3 { x: cx + h, y: cy - h, z: cz - h }, IVec3 { x: cx + h, y: cy - h, z: cz + h }));
        lines.push((IVec3 { x: cx - h, y: cy + h, z: cz - h }, IVec3 { x: cx - h, y: cy + h, z: cz + h }));
        lines.push((IVec3 { x: cx + h, y: cy + h, z: cz - h }, IVec3 { x: cx + h, y: cy + h, z: cz + h }));
        proof {
            assert(lines@ =~= cube_edges(self.bounds));
        }
        lines
    }

    /// Current total mass under the node.
    pub fn total_mass(&self) -> (m: i64)
        ensures
            m as int == self.spec_mass(),
    {
        self.mass
    }

    /// Derived center of mass; meaningful only for a non-empty node.
    pub fn center_of_mass(&self) -> (c: IVec3)
        requires
            self.inv(),
            self.spec_mass() >= 1,
        ensures
            c.x as int == self.com_x(),
            c.y as int == self.com_y(),
            c.z as int == self.com_z(),
            c.x as int == div_trunc(self.spec_weighted().0, self.spec_mass()),
            c.y as int == div_trunc(self.spec_weighted().1, self.spec_mass()),
            c.z as int == div_trunc(self.spec_weighted().2, self.spec_mass()),
    {
        proof {
            lemma_weighted_mag(self.mass as int, self.weighted, self.bounds);
        }
        IVec3 {
            x: div_trunc_i64(self.weighted.x, self.mass),
            y: div_trunc_i64(self.weighted.y, self.mass),
            z: div_trunc_i64(self.weighted.z, self.mass),
        }
    }
}

/// Combined force of the eight children of an interior node.
pub closed spec fn octants_force(ch: Octants, q: IVec3, mq: int, k: int, tn: int, td: int) -> (
    int,
    int,
    int,
)
    decreases ch,
{
    let f0 = ch.c0.force_on(q, mq, k, tn, td);
    let f1 = ch.c1.force_on(q, mq, k, tn, td);
    let f2 = ch.c2.force_on(q, mq, k, tn, td);
    let f3 = ch.c3.force_on(q, mq, k, tn, td);
    let f4 = ch.c4.force_on(q, mq, k, tn, td);
    let f5 = ch.c5.force_on(q, mq, k, tn, td);
    let f6 = ch.c6.force_on(q, mq, k, tn, td);
    let f7 = ch.c7.force_on(q, mq, k, tn, td);
    (
        f0.0 + f1.0 + f2.0 + f3.0 + f4.0 + f5.0 + f6.0 + f7.0,
        f0.1 + f1.1 + f2.1 + f3.1 + f4.1 + f5.1 + f6.1 + f7.1,
        f0.2 + f1.2 + f2.2 + f3.2 + f4.2 + f5.2 + f6.2 + f7.2,
    )
}

/// The twelve edges of a cube, grouped by the axis they run along.
pub open spec fn cube_edges(b: Bounds) -> Seq<(IVec3, IVec3)> {
    let cx = b.center.x as int;
    let cy = b.center.y as int;
    let cz = b.center.z as int;
    let h = b.half as int;
    seq![
        (IVec3 { x: (cx - h) as i64, y: (cy - h) as i64, z: (cz - h) as i64 }, IVec3 { x: (cx + h) as i64, y: (cy - h) as i64, z: (cz - h) as i64 }),
        (IVec3 { x: (cx - h) as i64, y: (cy + h) as i64, z: (cz - h) as i64 }, IVec3 { x: (cx + h) as i64, y: (cy + h) as i64, z: (cz - h) as i64 }),
        (IVec3 { x: (cx - h) as i64, y: (cy - h) as i64, z: (cz + h) as i64 }, IVec3 { x: (cx + h) as i64, y: (cy - h) as i64, z: (cz + h) as i64 }),
        (IVec3 { x: (cx - h) as i64, y: (cy + h) as i64, z: (cz + h) as i64 }, IVec3 { x: (cx + h) as i64, y: (cy + h) as i64, z: (cz + h) as i64 }),
        (IVec3 { x: (cx - h) as i64, y: (cy - h) as i64, z: (cz - h) as i64 }, IVec3 { x: (cx - h) as i64, y: (cy + h) as i64, z: (cz - h) as i64 }),
        (IVec3 { x: (cx + h) as i64, y: (cy - h) as i64, z: (cz - h) as i64 }, IVec3 { x: (cx + h) as i64, y: (cy + h) as i64, z: (cz - h) as i64 }),
        (IVec3 { x: (cx - h) as i64, y: (cy - h) as i64, z: (cz + h) as i64 }, IVec3 { x: (cx - h) as i64, y: (cy + h) as i64, z: (cz + h) as i64 }),
        (IVec3 { x: (cx + h) as i64, y: (cy - h) as i64, z: (cz + h) as i64 }, IVec3 { x: (cx + h) as i64, y: (cy + h) as i64, z: (cz + h) as i64 }),
        (IVec3 { x: (cx - h) as i64, y: (cy - h) as i64, z: (cz - h) as i64 }, IVec3 { x: (cx - h) as i64, y: (cy - h) as i64, z: (cz + h) as i64 }),
        (IVec3 { x: (cx + h) as i64, y: (cy - h) as i64, z: (cz - h) as i64 }, IVec3 { x: (cx + h) as i64, y: (cy - h) as i64, z: (cz + h) as i64 }),
        (IVec3 { x: (cx - h) as i64, y: (cy + h) as i64, z: (cz - h) as i64 }, IVec3 { x: (cx - h) as i64, y: (cy + h) as i64, z: (cz + h) as i64 }),
        (IVec3 { x: (cx + h) as i64, y: (cy + h) as i64, z: (cz - h) as i64 }, IVec3 { x: (cx + h) as i64, y: (cy + h) as i64, z: (cz + h) as i64 }),
    ]
}

/// How many of the points a cube covers.
pub open spec fn covered_count(b: Bounds, s: Seq<IVec3>) -> int
    decreases s.len(),
{
    if s.len() == 0 {
        0
    } else {
        (if b.covers(s[0]) { 1int } else { 0int }) + covered_count(b, s.drop_first())
    }
}

pub proof fn lemma_covered_count_nonneg(b: Bounds, s: Seq<IVec3>)
    ensures
        0 <= covered_count(b, s) <= s.len(),
    decreases s.len(),
{
    if s.len() > 0 {
        lemma_covered_count_nonneg(b, s.drop_first());
    }
}

/// Largest possible node count of a tree with `d` subdivision levels left.
pub open spec fn size_cap(d: nat) -> int
    decreases d,
{
    if d == 0 { 1 } else { 1 + 8 * size_cap((d - 1) as nat) }
}

pub proof fn lemma_size_cap_pos(d: nat)
    ensures
        size_cap(d) >= 1,
    decreases d,
{
    if d > 0 {
        lemma_size_cap_pos((d - 1) as nat);
    }
}

pub proof fn lemma_size_cap_mono(d1: nat, d2: nat)
    requires
        d1 <= d2,
    ensures
        size_cap(d1) <= size_cap(d2),
    decreases d2,
{
    if d1 < d2 && d2 > 0 {
        lemma_size_cap_mono(d1, (d2 - 1) as nat);
        lemma_size_cap_pos((d2 - 1) as nat);
    }
}

/// The cap for a full-depth tree, as a number.
pub proof fn lemma_size_cap_full()
    ensures
        size_cap(MAX_DEPTH as nat) == 19_173_961,
{
    reveal_with_fuel(size_cap, 9);
}

/// Magnitude of an eight-term sum, each term bounded by `t` times its own
/// weight.
proof fn lemma_abs_sum8(a0: int, a1: int, a2: int, a3: int, a4: int, a5: int, a6: int, a7: int,
    b0: int, b1: int, b2: int, b3: int, b4: int, b5: int, b6: int, b7: int, t: int)
    requires
        abs_i(a0) <= t * b0,
        abs_i(a1) <= t * b1,
        abs_i(a2) <= t * b2,
        abs_i(a3) <= t * b3,
        abs_i(a4) <= t * b4,
        abs_i(a5) <= t * b5,
        abs_i(a6) <= t * b6,
        abs_i(a7) <= t * b7,
    ensures
        abs_i(a0 + a1 + a2 + a3 + a4 + a5 + a6 + a7) <= t * (b0 + b1 + b2 + b3 + b4 + b5 + b6
            + b7),
{
    assert(t * b0 + t * b1 + t * b2 + t * b3 + t * b4 + t * b5 + t * b6 + t * b7 == t * (b0 + b1
        + b2 + b3 + b4 + b5 + b6 + b7)) by (nonlinear_arith);
}

/// The combined children force is bounded by `k * mq` times the combined
/// children mass.
#[verifier::rlimit(100)]
proof fn lemma_octants_force_bound(ch: Octants, q: IVec3, mq: int, k: int, tn: int, td: int)
    requires
        ch.c0.inv() && ch.c1.inv() && ch.c2.inv() && ch.c3.inv(),
        ch.c4.inv() && ch.c5.inv() && ch.c6.inv() && ch.c7.inv(),
        0 <= mq,
        0 <= k,
    ensures
        abs_i(octants_force(ch, q, mq, k, tn, td).0) <= (k * mq) * sum_mass(ch),
        abs_i(octants_force(ch, q, mq, k, tn, td).1) <= (k * mq) * sum_mass(ch),
        abs_i(octants_force(ch, q, mq, k, tn, td).2) <= (k * mq) * sum_mass(ch),
        (k * mq) * sum_mass(ch) >= 0,
    decreases ch, 0int,
{
    ch.c0.lemma_force_on_bound(q, mq, k, tn, td);
    ch.c1.lemma_force_on_bound(q, mq, k, tn, td);
    ch.c2.lemma_force_on_bound(q, mq, k, tn, td);
    ch.c3.lemma_force_on_bound(q, mq, k, tn, td);
    ch.c4.lemma_force_on_bound(q, mq, k, tn, td);
    ch.c5.lemma_force_on_bound(q, mq, k, tn, td);
    ch.c6.lemma_force_on_bound(q, mq, k, tn, td);
    ch.c7.lemma_force_on_bound(q, mq, k, tn, td);
    let t = k * mq;
    lemma_abs_sum8(ch.c0.force_on(q, mq, k, tn, td).0, ch.c1.force_on(q, mq, k, tn, td).0,
        ch.c2.force_on(q, mq, k, tn, td).0, ch.c3.force_on(q, mq, k, tn, td).0,
        ch.c4.force_on(q, mq, k, tn, td).0, ch.c5.force_on(q, mq, k, tn, td).0,
        ch.c6.force_on(q, mq, k, tn, td).0, ch.c7.force_on(q, mq, k, tn, td).0,
        ch.c0.spec_mass(), ch.c1.spec_mass(), ch.c2.spec_mass(), ch.c3.spec_mass(),
        ch.c4.spec_mass(), ch.c5.spec_mass(), ch.c6.spec_mass(), ch.c7.spec_mass(), t);
    lemma_abs_sum8(ch.c0.force_on(q, mq, k, tn, td).1, ch.c1.force_on(q, mq, k, tn, td).1,
        ch.c2.force_on(q, mq, k, tn, td).1, ch.c3.force_on(q, mq, k, tn, td).1,
        ch.c4.force_on(q, mq, k, tn, td).1, ch.c5.force_on(q, mq, k, tn, td).1,
        ch.c6.force_on(q, mq, k, tn, td).1, ch.c7.force_on(q, mq, k, tn, td).1,
        ch.c0.spec_mass(), ch.c1.spec_mass(), ch.c2.spec_mass(), ch.c3.spec_mass(),
        ch.c4.spec_mass(), ch.c5.spec_mass(), ch.c6.spec_mass(), ch.c7.spec_mass(), t);
    lemma_abs_sum8(ch.c0.force_on(q, mq, k, tn, td).2, ch.c1.force_on(q, mq, k, tn, td).2,
        ch.c2.force_on(q, mq, k, tn, td).2, ch.c3.force_on(q, mq, k, tn, td).2,
        ch.c4.force_on(q, mq, k, tn, td).2, ch.c5.force_on(q, mq, k, tn, td).2,
        ch.c6.force_on(q, mq, k, tn, td).2, ch.c7.force_on(q, mq, k, tn, td).2,
        ch.c0.spec_mass(), ch.c1.spec_mass(), ch.c2.spec_mass(), ch.c3.spec_mass(),
        ch.c4.spec_mass(), ch.c5.spec_mass(), ch.c6.spec_mass(), ch.c7.spec_mass(), t);
    assert(t * (ch.c0.spec_mass() + ch.c1.spec_mass() + ch.c2.spec_mass() + ch.c3.spec_mass()
        + ch.c4.spec_mass() + ch.c5.spec_mass() + ch.c6.spec_mass() + ch.c7.spec_mass()) == t
        * sum_mass(ch));
}

/// All eight children satisfy the invariant, cover the parent's octant
/// boxes in code order, and sit one level deeper.
spec fn octants_inv(ch: Octants, b: Bounds, level: u32) -> bool
    decreases ch,
{
    &&& ch.c0.inv() && ch.c0.bounds == b.octant_box(0) && ch.c0.level == level + 1
    &&& ch.c1.inv() && ch.c1.bounds == b.octant_box(1) && ch.c1.level == level + 1
    &&& ch.c2.inv() && ch.c2.bounds == b.octant_box(2) && ch.c2.level == level + 1
    &&& ch.c3.inv() && ch.c3.bounds == b.octant_box(3) && ch.c3.level == level + 1
    &&& ch.c4.inv() && ch.c4.bounds == b.octant_box(4) && ch.c4.level == level + 1
    &&& ch.c5.inv() && ch.c5.bounds == b.octant_box(5) && ch.c5.level == level + 1
    &&& ch.c6.inv() && ch.c6.bounds == b.octant_box(6) && ch.c6.level == level + 1
    &&& ch.c7.inv() && ch.c7.bounds == b.octant_box(7) && ch.c7.level == level + 1
}

/// The eight empty children subdivision creates under a cube at `level`.
pub closed spec fn fresh_octants(b: Bounds, level: u32) -> Octants {
    Octants {
        c0: OctreeNode::empty_node(b.octant_box(0), (level + 1) as u32),
        c1: OctreeNode::empty_node(b.octant_box(1), (level + 1) as u32),
        c2: OctreeNode::empty_node(b.octant_box(2), (level + 1) as u32),
        c3: OctreeNode::empty_node(b.octant_box(3), (level + 1) as u32),
        c4: OctreeNode::empty_node(b.octant_box(4), (level + 1) as u32),
        c5: OctreeNode::empty_node(b.octant_box(5), (level + 1) as u32),
        c6: OctreeNode::empty_node(b.octant_box(6), (level + 1) as u32),
        c7: OctreeNode::empty_node(b.octant_box(7), (level + 1) as u32),
    }
}

/// Insertion of a point into the one child whose octant holds it; the
/// parent cube and level anchor the octant code and the recursion depth.
pub closed spec fn octants_pushed(ch: Octants, b: Bounds, level: u32, q: IVec3) -> Octants
    decreases MAX_DEPTH - level, 0int,
{
    if level >= MAX_DEPTH {
        ch
    } else {
        let oct = b.octant_of(q);
        if oct == 0 {
            if ch.c0.level == level + 1 {
                Octants { c0: ch.c0.spec_inserted(q), ..ch }
            } else {
                ch
            }
        } else if oct == 1 {
            if ch.c1.level == level + 1 {
                Octants { c1: ch.c1.spec_inserted(q), ..ch }
            } else {
                ch
            }
        } else if oct == 2 {
            if ch.c2.level == level + 1 {
                Octants { c2: ch.c2.spec_inserted(q), ..ch }
            } else {
                ch
            }
        } else if oct == 3 {
            if ch.c3.level == level + 1 {
                Octants { c3: ch.c3.spec_inserted(q), ..ch }
            } else {
                ch
            }
        } else if oct == 4 {
            if ch.c4.level == level + 1 {
                Octants { c4: ch.c4.spec_inserted(q), ..ch }
            } else {
                ch
            }
        } else if oct == 5 {
            if ch.c5.level == level + 1 {
                Octants { c5: ch.c5.spec_inserted(q), ..ch }
            } else {
                ch
            }
        } else if oct == 6 {
            if ch.c6.level == level + 1 {
                Octants { c6: ch.c6.spec_inserted(q), ..ch }
            } else {
                ch
            }
        } else {
            if ch.c7.level == level + 1 {
                Octants { c7: ch.c7.spec_inserted(q), ..ch }
            } else {
                ch
            }
        }
    }
}

/// Freshly subdivided children: as `octants_inv`, and all empty.
spec fn octants_fresh(ch: Octants, b: Bounds, level: u32) -> bool {
    &&& ch.c0 == OctreeNode::empty_node(b.octant_box(0), (level + 1) as u32)
    &&& ch.c1 == OctreeNode::empty_node(b.octant_box(1), (level + 1) as u32)
    &&& ch.c2 == OctreeNode::empty_node(b.octant_box(2), (level + 1) as u32)
    &&& ch.c3 == OctreeNode::empty_node(b.octant_box(3), (level + 1) as u32)
    &&& ch.c4 == OctreeNode::empty_node(b.octant_box(4), (level + 1) as u32)
    &&& ch.c5 == OctreeNode::empty_node(b.octant_box(5), (level + 1) as u32)
    &&& ch.c6 == OctreeNode::empty_node(b.octant_box(6), (level + 1) as u32)
    &&& ch.c7 == OctreeNode::empty_node(b.octant_box(7), (level + 1) as u32)
}

spec fn sum_mass(ch: Octants) -> int {
    ch.c0.mass + ch.c1.mass + ch.c2.mass + ch.c3.mass + ch.c4.mass + ch.c5.mass + ch.c6.mass
        + ch.c7.mass
}

spec fn sum_wx(ch: Octants) -> int {
    ch.c0.weighted.x + ch.c1.weighted.x + ch.c2.weighted.x + ch.c3.weighted.x + ch.c4.weighted.x
        + ch.c5.weighted.x + ch.c6.weighted.x + ch.c7.weighted.x
}

spec fn sum_wy(ch: Octants) -> int {
    ch.c0.weighted.y + ch.c1.weighted.y + ch.c2.weighted.y + ch.c3.weighted.y + ch.c4.weighted.y
        + ch.c5.weighted.y + ch.c6.weighted.y + ch.c7.weighted.y
}

spec fn sum_wz(ch: Octants) -> int {
    ch.c0.weighted.z + ch.c1.weighted.z + ch.c2.weighted.z + ch.c3.weighted.z + ch.c4.weighted.z
        + ch.c5.weighted.z + ch.c6.weighted.z + ch.c7.weighted.z
}

/// A weighted sum over a well-formed cube is bounded in magnitude by
/// `TOTAL_MASS_LIMIT * COORD_LIMIT`.
proof fn lemma_weighted_mag(m: int, w: IVec3, b: Bounds)
    requires
        b.wf(),
        0 <= m <= TOTAL_MASS_LIMIT,
        in_weighted_box(m, w, b),
    ensures
        -10_000_000_000_000_000 <= w.x <= 10_000_000_000_000_000,
        -10_000_000_000_000_000 <= w.y <= 10_000_000_000_000_000,
        -10_000_000_000_000_000 <= w.z <= 10_000_000_000_000_000,
{
    assert(-10_000_000_000_000_000 <= w.x <= 10_000_000_000_000_000) by (nonlinear_arith)
        requires
            0 <= m <= 10_000_000,
            m * (b.center.x - b.half) <= w.x <= m * (b.center.x + b.half),
            -1_000_000_000 <= b.center.x - b.half,
            b.center.x + b.half <= 1_000_000_000,
    ;
    assert(-10_000_000_000_000_000 <= w.y <= 10_000_000_000_000_000) by (nonlinear_arith)
        requires
            0 <= m <= 10_000_000,
            m * (b.center.y - b.half) <= w.y <= m * (b.center.y + b.half),
            -1_000_000_000 <= b.center.y - b.half,
            b.center.y + b.half <= 1_000_000_000,
    ;
    assert(-10_000_000_000_000_000 <= w.z <= 10_000_000_000_000_000) by (nonlinear_arith)
        requires
            0 <= m <= 10_000_000,
            m * (b.center.z - b.half) <= w.z <= m * (b.center.z + b.half),
            -1_000_000_000 <= b.center.z - b.half,
            b.center.z + b.half <= 1_000_000_000,
    ;
}

/// An aggregate of zero points has a zero weighted sum.
proof fn lemma_weighted_zero(w: IVec3, b: Bounds)
    requires
        in_weighted_box(0, w, b),
    ensures
        w.x == 0 && w.y == 0 && w.z == 0,
{
    assert(w.x == 0) by (nonlinear_arith)
        requires
            0 * (b.center.x - b.half) <= w.x <= 0 * (b.center.x + b.half),
    ;
    assert(w.y == 0) by (nonlinear_arith)
        requires
            0 * (b.center.y - b.half) <= w.y <= 0 * (b.center.y + b.half),
    ;
    assert(w.z == 0) by (nonlinear_arith)
        requires
            0 * (b.center.z - b.half) <= w.z <= 0 * (b.center.z + b.half),
    ;
}

/// The weighted sum of a single point is the point itself, inside the cube.
proof fn lemma_weighted_single(w: IVec3, b: Bounds)
    requires
        in_weighted_box(1, w, b),
    ensures
        b.covers(w),
{
    assert(b.center.x - b.half <= w.x <= b.center.x + b.half) by (nonlinear_arith)
        requires
            1 * (b.center.x - b.half) <= w.x <= 1 * (b.center.x + b.half),
    ;
    assert(b.center.y - b.half <= w.y <= b.center.y + b.half) by (nonlinear_arith)
        requires
            1 * (b.center.y - b.half) <= w.y <= 1 * (b.center.y + b.half),
    ;
    assert(b.center.z - b.half <= w.z <= b.center.z + b.half) by (nonlinear_arith)
        requires
            1 * (b.center.z - b.half) <= w.z <= 1 * (b.center.z + b.half),
    ;
}

/// Freshly subdivided children satisfy the invariant and hold nothing.
proof fn lemma_fresh_octants_inv(ch: Octants, b: Bounds, level: u32)
    requires
        b.wf(),
        level < MAX_DEPTH,
        (b.half as int) % pow2i((MAX_DEPTH - level) as nat) == 0,
        octants_fresh(ch, b, level),
    ensures
        octants_inv(ch, b, level),
        sum_mass(ch) == 0,
        sum_wx(ch) == 0,
        sum_wy(ch) == 0,
        sum_wz(ch) == 0,
{
    assert forall|i: int| 0 <= i < 8 implies b.octant_box(i).wf() && b.octant_box(i).half as int
        % pow2i((MAX_DEPTH - (level + 1)) as nat) == 0 by {
        lemma_octant_divisibility(b, i, level);
        lemma_octant_box_wf(b, i);
    };
    assert(OctreeNode::empty_node(b.octant_box(0), (level + 1) as u32).inv()) by {
        lemma_empty_inv(b.octant_box(0), (level + 1) as u32);
    };
    lemma_empty_inv(b.octant_box(1), (level + 1) as u32);
    lemma_empty_inv(b.octant_box(2), (level + 1) as u32);
    lemma_empty_inv(b.octant_box(3), (level + 1) as u32);
    lemma_empty_inv(b.octant_box(4), (level + 1) as u32);
    lemma_empty_inv(b.octant_box(5), (level + 1) as u32);
    lemma_empty_inv(b.octant_box(6), (level + 1) as u32);
    lemma_empty_inv(b.octant_box(7), (level + 1) as u32);
}

/// An empty node over a valid cube satisfies the invariant.
proof fn lemma_empty_inv(b: Bounds, level: u32)
    requires
        b.wf(),
        level <= MAX_DEPTH,
        (b.half as int) % pow2i((MAX_DEPTH - level) as nat) == 0,
    ensures
        OctreeNode::empty_node(b, level).inv(),
{
    let n = OctreeNode::empty_node(b, level);
    assert(0 * (b.center.x - b.half) == 0 && 0 * (b.center.x + b.half) == 0
        && 0 * (b.center.y - b.half) == 0 && 0 * (b.center.y + b.half) == 0
        && 0 * (b.center.z - b.half) == 0 && 0 * (b.center.z + b.half) == 0) by (nonlinear_arith);
    assert(in_weighted_box(0, n.weighted, b));
}

/// Each child of an interior node carries a non-negative mass no larger
/// than the sum over all eight.
proof fn lemma_octants_masses(ch: Octants, b: Bounds, level: u32)
    requires
        octants_inv(ch, b, level),
    ensures
        0 <= ch.c0.mass && 0 <= ch.c1.mass && 0 <= ch.c2.mass && 0 <= ch.c3.mass
            && 0 <= ch.c4.mass && 0 <= ch.c5.mass && 0 <= ch.c6.mass && 0 <= ch.c7.mass,
{
    assert(ch.c0.inv() && ch.c1.inv() && ch.c2.inv() && ch.c3.inv() && ch.c4.inv()
        && ch.c5.inv() && ch.c6.inv() && ch.c7.inv());
}

/// Extending an aggregate of `m` points by one point inside the same cube
/// keeps the weighted sum inside the cube scaled by `m + 1`.
proof fn lemma_weighted_extend(m: int, w: int, lo: int, hi: int, p: int)
    requires
        0 <= m,
        m * lo <= w <= m * hi,
        lo <= p <= hi,
    ensures
        (m + 1) * lo <= w + p <= (m + 1) * hi,
{
    assert((m + 1) * lo == m * lo + lo && (m + 1) * hi == m * hi + hi) by (nonlinear_arith);
}

/// 2^MAX_DEPTH equals the published half-extent step.
proof fn lemma_pow2i_unfold_to_step()
    ensures
        pow2i((MAX_DEPTH - 0) as nat) == HALF_EXTENT_STEP as int,
{
    reveal_with_fuel(pow2i, 9);
    assert(pow2i(8) == 256);
}

} // verus!
