//! Flat Barnes-Hut octree: every node lives in one growable array, and a
//! per-node skip index (`next`) lets a force query walk the whole tree in a
//! plain loop, without recursion or a stack.
//!
//! Aggregation is deferred: insertions only place point masses in leaves,
//! and an explicit [`Octree::backpropagate`] pass, run once after all
//! insertions of a frame, recomputes every interior node's mass and center
//! of mass from its children (children live at higher indices than their
//! parent, so one reverse sweep suffices).

use vstd::prelude::*;
use crate::vec3::{IVec3, Force3};
use crate::bounds::{Bounds, lemma_octant_box_wf, lemma_octant_covers, lemma_octant_divisibility,
    lemma_octant_within};
use crate::numeric::{abs_i, div_trunc, div_trunc_i128, pow2i};
use crate::repulsion::{pair_force, is_far, accumulate_pair, far_test, lemma_pair_force_bound,
    lemma_far_monotone, lemma_pairwise_concat, pairwise_force, PointMass};
use crate::barnes_hut::size_cap;
use crate::{COORD_LIMIT, COEFF_LIMIT, MAX_DEPTH, HALF_EXTENT_STEP, MIN_DISTANCE_SQ,
    POINT_MASS_LIMIT, THETA_LIMIT, TOTAL_MASS_LIMIT};

verus! {

/// One node of the flat tree.
///
/// `children == 0` marks a leaf; otherwise `children` is the index of the
/// first of eight contiguous children. `next == 0` ends a traversal;
/// otherwise it is the node to continue with when this node's subtree is
/// consumed or skipped. The ghost `parent` records which interior node owns
/// this slot in its block; it carries the proof that every slot belongs to
/// exactly one block.
#[derive(Clone, Copy)]
pub struct FlatNode {
    center: IVec3,
    half: i64,
    level: u32,
    children: usize,
    next: usize,
    mass: i64,
    com: IVec3,
    parent: Ghost<int>,
}

impl FlatNode {
    spec fn bounds(self) -> Bounds {
        Bounds { center: self.center, half: self.half }
    }

    spec fn is_leaf(self) -> bool {
        self.children == 0
    }
}

/// Sum of the masses stored in the leaves among slots `1 .. n`.
spec fn leaf_mass_upto(s: Seq<FlatNode>, n: int) -> int
    decreases n,
{
    if n <= 1 {
        0
    } else {
        leaf_mass_upto(s, n - 1) + if 0 <= n - 1 < s.len() && s[n - 1].is_leaf() {
            s[n - 1].mass as int
        } else {
            0
        }
    }
}

/// The ancestor chain of slot `k` passes through slot `i` (or `k == i`):
/// following ghost parent links, which strictly descend, reaches `i`.
spec fn reaches(s: Seq<FlatNode>, i: int, k: int) -> bool
    decreases k,
{
    if k == i {
        true
    } else if 2 <= k < s.len() && i < k {
        let p = s[k].parent@;
        if 1 <= p < k {
            reaches(s, i, p)
        } else {
            false
        }
    } else {
        false
    }
}

/// Sum of the masses of the leaves among slots `1 .. n` whose ancestor
/// chain passes through `i`: the mass genuinely under node `i`.
spec fn reach_mass_upto(s: Seq<FlatNode>, i: int, n: int) -> int
    decreases n,
{
    if n <= 1 {
        0
    } else {
        reach_mass_upto(s, i, n - 1) + if 0 <= n - 1 < s.len() && s[n - 1].is_leaf() && reaches(
            s, i, n - 1) {
            s[n - 1].mass as int
        } else {
            0
        }
    }
}

/// Per-slot well-formedness, for slots `1 <= i < len`.
spec fn node_ok(s: Seq<FlatNode>, i: int) -> bool {
    0 <= i < s.len() && {
        let n = s[i];
        &&& n.bounds().wf()
        &&& n.level <= MAX_DEPTH
        &&& (n.half as int) % pow2i((MAX_DEPTH - n.level) as nat) == 0
        &&& 0 <= n.mass <= TOTAL_MASS_LIMIT
        &&& (n.next == 0 || 1 <= n.next < s.len())
        &&& n.is_leaf() ==> {
            if n.mass > 0 {
                n.bounds().covers(n.com)
            } else {
                n.com == (IVec3 { x: 0, y: 0, z: 0 })
            }
        }
        &&& !n.is_leaf() ==> {
            &&& 2 <= n.children
            &&& i < n.children
            &&& n.children + 8 <= s.len()
            &&& n.level < MAX_DEPTH
            &&& forall|j: int|
                0 <= j < 8 ==> #[trigger] child_ok(s, i, j)
        }
    }
}

/// Child `j` of interior node `i` sits where the block says, covers the
/// matching octant cube, and is linked to its successor.
spec fn child_ok(s: Seq<FlatNode>, i: int, j: int) -> bool {
    0 <= i < s.len() && 0 <= j < 8 && s[i].children + 8 <= s.len() && {
        let n = s[i];
        let c = s[n.children + j];
        &&& c.center == n.bounds().octant_box(j).center
        &&& c.half == n.bounds().octant_box(j).half
        &&& c.level == n.level + 1
        &&& c.parent@ == i
        &&& (if j < 7 {
            c.next == n.children + j + 1
        } else {
            c.next == n.next
        })
    }
}

/// Every slot from 2 on is a member of its ghost parent's child block.
spec fn parent_ok(s: Seq<FlatNode>, k: int) -> bool {
    2 <= k < s.len() ==> {
        let p = s[k].parent@;
        &&& 1 <= p < k
        &&& !s[p].is_leaf()
        &&& s[p].children <= k < s[p].children + 8
    }
}

/// Aggregates are current: every interior node's mass is the exact sum of
/// its children's, its center of mass the truncated mass-weighted mean.
spec fn settled(s: Seq<FlatNode>) -> bool {
    forall|i: int|
        1 <= i < s.len() && !(#[trigger] s[i]).is_leaf() ==> {
            &&& s[i].mass as int == block_mass(s, s[i].children as int)
            &&& (s[i].mass > 0 ==> s[i].bounds().covers(s[i].com))
            &&& (s[i].mass == 0 ==> s[i].com == (IVec3 { x: 0, y: 0, z: 0 }))
        }
}

/// Combined mass of the block of eight children starting at `c`.
spec fn block_mass(s: Seq<FlatNode>, c: int) -> int {
    if 0 <= c && c + 8 <= s.len() {
        s[c].mass + s[c + 1].mass + s[c + 2].mass + s[c + 3].mass + s[c + 4].mass + s[c
            + 5].mass + s[c + 6].mass + s[c + 7].mass
    } else {
        0
    }
}

/// The flat iterative octree.
pub struct Octree {
    nodes: Vec<FlatNode>,
    center: IVec3,
    half: i64,
    total: i64,
    dirty: bool,
}

impl Octree {
    /// Structural invariant of the whole array.
    pub closed spec fn inv(self) -> bool {
        let s = self.nodes@;
        &&& 2 <= s.len()
        &&& s.len() <= 2 + 64 * self.total
        // placeholder slot 0 is inert
        &&& s[0].is_leaf() && s[0].next == 0 && s[0].mass == 0
        // slot 1 is the true root
        &&& s[1].center == self.center && s[1].half == self.half && s[1].level == 0 && s[1].next
            == 0
        &&& forall|i: int| 1 <= i < s.len() ==> #[trigger] node_ok(s, i)
        &&& forall|k: int| 2 <= k < s.len() ==> #[trigger] parent_ok(s, k)
        &&& 0 <= self.total <= TOTAL_MASS_LIMIT
        &&& self.total as int == leaf_mass_upto(s, s.len() as int)
        &&& (!self.dirty ==> settled(s))
    }

    pub closed spec fn spec_total(self) -> int {
        self.total as int
    }

    /// Root mass as stored (meaningful once backpropagated).
    pub closed spec fn spec_root_mass(self) -> int {
        self.nodes@[1].mass as int
    }

    pub closed spec fn spec_bounds(self) -> Bounds {
        Bounds { center: self.center, half: self.half }
    }

    /// Aggregates are stale until the next backpropagation.
    pub closed spec fn spec_dirty(self) -> bool {
        self.dirty
    }

    pub closed spec fn spec_len(self) -> int {
        self.nodes@.len() as int
    }

    /// The whole node array: the tree's full state.
    pub closed spec fn spec_nodes(self) -> Seq<FlatNode> {
        self.nodes@
    }

    /// The node array after one insertion: the exact successor state the
    /// executable insertion produces. The point descends to its leaf; an
    /// empty leaf stores it, a coinciding or depth-capped leaf merges it,
    /// and otherwise a chain of subdivisions separates the two points.
    pub closed spec fn spec_inserted_nodes(self, position: IVec3, mass: i64) -> Seq<FlatNode> {
        let s = self.nodes@;
        if !self.spec_bounds().covers(position) {
            s
        } else {
            let leaf = spec_descend(s, 1, position);
            if !(1 <= leaf < s.len()) {
                s
            } else if s[leaf].mass == 0 {
                s.update(leaf, FlatNode { mass, com: position, ..s[leaf] })
            } else if s[leaf].com == position || s[leaf].level >= MAX_DEPTH {
                s.update(leaf, FlatNode { mass: (s[leaf].mass + mass) as i64, ..s[leaf] })
            } else {
                spec_chain(spec_subdivided_at(s, leaf), leaf, position, mass as int,
                    s[leaf].com, s[leaf].mass as int)
            }
        }
    }

    /// The node array after a full aggregation sweep: the exact state the
    /// executable backpropagation produces, deepest slots first.
    pub closed spec fn spec_backpropagated(self) -> Seq<FlatNode> {
        spec_swept_upto(self.nodes@, (self.nodes@.len() - 1) as nat)
    }

    /// Creates an empty tree: an inert placeholder at slot 0 and the root
    /// at slot 1. The half-extent obeys the same constraints as the
    /// recursive variant's.
    pub fn new(center: IVec3, half_extent: i64) -> (tree: Octree)
        requires
            (Bounds { center, half: half_extent }).wf(),
            half_extent as int % HALF_EXTENT_STEP as int == 0,
        ensures
            tree.inv(),
            tree.spec_total() == 0,
            tree.spec_dirty() == false,
            tree.spec_bounds() == (Bounds { center, half: half_extent }),
            tree.spec_nodes() == fresh_flat_nodes(center, half_extent),
    {
        proof {
            lemma_pow2i_step();
        }
        let mut nodes: Vec<FlatNode> = Vec::new();
        nodes.push(FlatNode {
            center: IVec3 { x: 0, y: 0, z: 0 },
            half: 1,
            level: MAX_DEPTH,
            children: 0,
            next: 0,
            mass: 0,
            com: IVec3 { x: 0, y: 0, z: 0 },
            parent: Ghost(0int),
        });
        nodes.push(FlatNode {
            center,
            half: half_extent,
            level: 0,
            children: 0,
            next: 0,
            mass: 0,
            com: IVec3 { x: 0, y: 0, z: 0 },
            parent: Ghost(0int),
        });
        let tree = Octree { nodes, center, half: half_extent, total: 0, dirty: false };
        proof {
            let s = tree.nodes@;
            assert(node_ok(s, 1)) by {
                assert(s[1].bounds().wf());
            };
            assert(leaf_mass_upto(s, 2) == 0) by {
                reveal_with_fuel(leaf_mass_upto, 3);
                assert(s[0].mass == 0 && s[1].mass == 0);
            };
            assert(s =~= fresh_flat_nodes(center, half_extent));
        }
        tree
    }

    /// Resets to an empty tree over the same cube, reusing the allocation.
    pub fn clear(&mut self)
        requires
            old(self).inv(),
        ensures
            final(self).inv(),
            final(self).spec_total() == 0,
            final(self).spec_dirty() == false,
            final(self).spec_bounds() == old(self).spec_bounds(),
            final(self).spec_nodes() == fresh_flat_nodes(old(self).spec_bounds().center,
                old(self).spec_bounds().half),
    {
        proof {
            lemma_pow2i_step();
            assert(node_ok(old(self).nodes@, 1));
        }
        self.nodes.clear();
        self.nodes.push(FlatNode {
            center: IVec3 { x: 0, y: 0, z: 0 },
            half: 1,
            level: MAX_DEPTH,
            children: 0,
            next: 0,
            mass: 0,
            com: IVec3 { x: 0, y: 0, z: 0 },
            parent: Ghost(0int),
        });
        self.nodes.push(FlatNode {
            center: self.center,
            half: self.half,
            level: 0,
            children: 0,
            next: 0,
            mass: 0,
            com: IVec3 { x: 0, y: 0, z: 0 },
            parent: Ghost(0int),
        });
        self.total = 0;
        self.dirty = false;
        proof {
            let s = self.nodes@;
            assert(node_ok(s, 1)) by {
                assert(s[1].bounds().wf());
            };
            assert(leaf_mass_upto(s, 2) == 0) by {
                reveal_with_fuel(leaf_mass_upto, 3);
                assert(s[0].mass == 0 && s[1].mass == 0);
            };
            assert(s =~= fresh_flat_nodes(old(self).spec_bounds().center,
                old(self).spec_bounds().half));
        }
    }

    /// Sum of all masses inserted since the last clear.
    pub fn total_mass(&self) -> (m: i64)
        ensures
            m as int == self.spec_total(),
    {
        self.total
    }

    /// The root's aggregated mass as stored; after a backpropagation this
    /// equals the total of all inserted masses.
    pub fn root_mass(&self) -> (m: i64)
        requires
            self.inv(),
        ensures
            m as int == self.spec_root_mass(),
    {
        self.nodes[1].mass
    }

    /// True when aggregates are stale: a force query must be preceded by
    /// [`Octree::backpropagate`].
    pub fn needs_backpropagation(&self) -> (d: bool)
        ensures
            d == self.spec_dirty(),
    {
        self.dirty
    }
}

impl Octree {
    /// Inserts a point mass. Returns `false`, leaving the tree unchanged,
    /// when the point lies outside the root cube; otherwise the mass joins
    /// the leaves and the running total grows by exactly `mass`.
    #[verifier::rlimit(100)]
    pub fn insert(&mut self, position: IVec3, mass: i64) -> (r: bool)
        requires
            old(self).inv(),
            1 <= mass <= POINT_MASS_LIMIT,
            old(self).spec_total() + mass <= TOTAL_MASS_LIMIT,
        ensures
            final(self).inv(),
            r == old(self).spec_bounds().covers(position),
            final(self).spec_bounds() == old(self).spec_bounds(),
            r ==> final(self).spec_total() == old(self).spec_total() + mass,
            r ==> final(self).spec_dirty(),
            r ==> final(self).spec_nodes() == old(self).spec_inserted_nodes(position, mass),
            !r ==> *final(self) == *old(self),
    {
        let root = Bounds { center: self.center, half: self.half };
        proof {
            assert(node_ok(self.nodes@, 1));
        }
        if !root.contains(position) {
            return false;
        }
        // Descend to the leaf whose cube covers the point.
        let mut node: usize = 1;
        while self.nodes[node].children != 0
            invariant
                *self == *old(self),
                self.inv(),
                1 <= node < self.nodes@.len(),
                self.nodes@[node as int].bounds().covers(position),
                spec_descend(self.nodes@, 1, position) == spec_descend(self.nodes@, node as int,
                    position),
            decreases self.nodes@.len() - node,
        {
            proof {
                assert(node_ok(self.nodes@, node as int));
                lemma_octant_divisibility(self.nodes@[node as int].bounds(),
                    self.nodes@[node as int].bounds().octant_of(position),
                    self.nodes@[node as int].level);
                lemma_octant_covers(self.nodes@[node as int].bounds(), position);
            }
            let b = Bounds { center: self.nodes[node].center, half: self.nodes[node].half };
            let oct = b.octant(position);
            proof {
                assert(child_ok(self.nodes@, node as int, oct as int));
            }
            node = self.nodes[node].children + oct;
        }
        proof {
            assert(node_ok(self.nodes@, node as int));
            assert(spec_descend(self.nodes@, 1, position) == node as int);
        }
        let n = self.nodes[node];
        if n.mass == 0 {
            // Empty leaf: store the point directly.
            let nd = FlatNode { mass, com: position, ..n };
            proof {
                lemma_update_keeps_shape(self.nodes@, node as int, nd);
                lemma_lmu_update(self.nodes@, self.nodes@.update(node as int, nd), node as int,
                    self.nodes@.len() as int);
            }
            self.nodes.set(node, nd);
            self.total = self.total + mass;
            self.dirty = true;
            assert(self.spec_nodes() == old(self).spec_inserted_nodes(position, mass));
            return true;
        }
        if n.com == position || n.level >= MAX_DEPTH {
            // Coinciding point, or the depth cap: merge the masses in place.
            proof {
                lemma_mass_nonneg_all(self.nodes@);
                lemma_leaf_le_lmu(self.nodes@, node as int, self.nodes@.len() as int);
            }
            let nd = FlatNode { mass: n.mass + mass, ..n };
            proof {
                lemma_update_keeps_shape(self.nodes@, node as int, nd);
                lemma_lmu_update(self.nodes@, self.nodes@.update(node as int, nd), node as int,
                    self.nodes@.len() as int);
            }
            self.nodes.set(node, nd);
            self.total = self.total + mass;
            self.dirty = true;
            assert(self.spec_nodes() == old(self).spec_inserted_nodes(position, mass));
            return true;
        }
        // Occupied leaf at a splittable level: subdivide until the stored
        // point and the new point fall into different octants.
        let stored_pos = n.com;
        let stored_mass = n.mass;
        let ghost len0 = self.nodes@.len() as int;
        let ghost lvl0 = self.nodes@[node as int].level as int;
        proof {
            lemma_mass_nonneg_all(self.nodes@);
            lemma_leaf_le_lmu(self.nodes@, node as int, self.nodes@.len() as int);
        }
        let ghost target = old(self).spec_inserted_nodes(position, mass);
        let mut cur: usize = node;
        self.subdivide(cur);
        proof {
            assert(target == spec_chain(self.nodes@, node as int, position, mass as int,
                stored_pos, stored_mass as int));
        }
        loop
            invariant
                old(self).inv(),
                old(self).spec_bounds().covers(position),
                1 <= mass <= POINT_MASS_LIMIT,
                old(self).spec_total() + mass <= TOTAL_MASS_LIMIT,
                len0 == old(self).nodes@.len() as int,
                len0 <= 2 + 64 * old(self).total,
                self.shape_ok(),
                self.dirty == old(self).dirty,
                self.center == old(self).center,
                self.half == old(self).half,
                self.total == old(self).total,
                1 <= cur < self.nodes@.len(),
                !self.nodes@[cur as int].is_leaf(),
                self.nodes@[cur as int].bounds().covers(position),
                self.nodes@[cur as int].bounds().covers(stored_pos),
                self.nodes@[cur as int].level < MAX_DEPTH,
                forall|j: int|
                    0 <= j < 8 ==> (#[trigger] self.nodes@[self.nodes@[cur as int].children
                        + j]).mass == 0 && self.nodes@[self.nodes@[cur as int].children
                        + j].is_leaf(),
                1 <= stored_mass,
                stored_mass + mass <= TOTAL_MASS_LIMIT,
                stored_mass + mass + leaf_mass_upto(self.nodes@, self.nodes@.len() as int)
                    == mass + old(self).spec_total(),
                self.nodes@.len() as int <= len0 + 8 * (self.nodes@[cur as int].level - lvl0
                    + 1),
                0 <= lvl0 <= self.nodes@[cur as int].level,
                target == old(self).spec_inserted_nodes(position, mass),
                target == spec_chain(self.nodes@, cur as int, position, mass as int, stored_pos,
                    stored_mass as int),
            decreases MAX_DEPTH - self.nodes@[cur as int].level,
        {
            proof {
                assert(node_ok(self.nodes@, cur as int));
                lemma_octant_divisibility(self.nodes@[cur as int].bounds(),
                    self.nodes@[cur as int].bounds().octant_of(position),
                    self.nodes@[cur as int].level);
                lemma_octant_covers(self.nodes@[cur as int].bounds(), position);
                lemma_octant_covers(self.nodes@[cur as int].bounds(), stored_pos);
            }
            let b = Bounds { center: self.nodes[cur].center, half: self.nodes[cur].half };
            let o1 = b.octant(position);
            let o2 = b.octant(stored_pos);
            let c = self.nodes[cur].children;
            proof {
                assert(child_ok(self.nodes@, cur as int, o1 as int));
                assert(child_ok(self.nodes@, cur as int, o2 as int));
            }
            if o1 == o2 {
                let child = c + o1;
                proof {
                    assert(node_ok(self.nodes@, child as int));
                }
                if self.nodes[child].level >= MAX_DEPTH {
                    // Both points crowd one deepest cell: merge them there.
                    let cn = self.nodes[child];
                    let nd = FlatNode { mass: stored_mass + mass, com: stored_pos, ..cn };
                    proof {
                        assert(self.nodes@[child as int].bounds() == self.nodes@[
                            cur as int].bounds().octant_box(o2 as int));
                        assert(self.nodes@[child as int].bounds().covers(stored_pos));
                        assert(self.nodes@[child as int].mass == 0);
                        assert(node_ok(self.nodes@.update(child as int, nd), child as int));
                        lemma_update_keeps_shape(self.nodes@, child as int, nd);
                        lemma_lmu_update(self.nodes@, self.nodes@.update(child as int, nd),
                            child as int, self.nodes@.len() as int);
                    }
                    self.nodes.set(child, nd);
                    self.total = self.total + mass;
                    self.dirty = true;
                    assert(self.spec_nodes() == target);
                    return true;
                }
                proof {
                    assert(self.nodes@[child as int].level == self.nodes@[cur as int].level
                        + 1);
                    assert(self.nodes@[child as int].level <= MAX_DEPTH - 1);
                    assert(self.nodes@.len() + 8 <= len0 + 8 * (self.nodes@[
                        child as int].level - lvl0 + 1));
                    assert(self.nodes@[child as int].mass == 0);
                }
                cur = child;
                self.subdivide(cur);
                continue;
            }
            // The points diverge: place each in its own empty child.
            let c1 = c + o1;
            let c2 = c + o2;
            proof {
                assert(node_ok(self.nodes@, c1 as int));
                assert(node_ok(self.nodes@, c2 as int));
            }
            let n1 = self.nodes[c1];
            let nd1 = FlatNode { mass, com: position, ..n1 };
            proof {
                assert(self.nodes@[c1 as int].bounds() == self.nodes@[
                    cur as int].bounds().octant_box(o1 as int));
                assert(self.nodes@[c1 as int].bounds().covers(position));
                assert(self.nodes@[c1 as int].mass == 0);
                assert(node_ok(self.nodes@.update(c1 as int, nd1), c1 as int));
                lemma_update_keeps_shape(self.nodes@, c1 as int, nd1);
                lemma_lmu_update(self.nodes@, self.nodes@.update(c1 as int, nd1), c1 as int,
                    self.nodes@.len() as int);
            }
            self.nodes.set(c1, nd1);
            let n2 = self.nodes[c2];
            let nd2 = FlatNode { mass: stored_mass, com: stored_pos, ..n2 };
            proof {
                assert(self.nodes@[c2 as int].bounds() == self.nodes@[
                    cur as int].bounds().octant_box(o2 as int));
                assert(self.nodes@[c2 as int].bounds().covers(stored_pos));
                assert(self.nodes@[c2 as int].mass == 0);
                assert(node_ok(self.nodes@.update(c2 as int, nd2), c2 as int));
                lemma_update_keeps_shape(self.nodes@, c2 as int, nd2);
                lemma_lmu_update(self.nodes@, self.nodes@.update(c2 as int, nd2), c2 as int,
                    self.nodes@.len() as int);
            }
            self.nodes.set(c2, nd2);
            self.total = self.total + mass;
            self.dirty = true;
            assert(self.spec_nodes() == target);
            return true;
        }
    }

    /// The shape half of the invariant: everything except the mass total
    /// and the settledness of aggregates.
    closed spec fn shape_ok(self) -> bool {
        let s = self.nodes@;
        &&& 2 <= s.len()
        &&& s.len() <= 2 + 64 * self.total + 64
        &&& s[0].is_leaf() && s[0].next == 0 && s[0].mass == 0
        &&& s[1].center == self.center && s[1].half == self.half && s[1].level == 0 && s[1].next
            == 0
        &&& forall|i: int| 1 <= i < s.len() ==> #[trigger] node_ok(s, i)
        &&& forall|k: int| 2 <= k < s.len() ==> #[trigger] parent_ok(s, k)
        &&& 0 <= self.total <= TOTAL_MASS_LIMIT
    }

    /// Turns leaf `node` into an interior node with eight fresh empty
    /// children at the end of the array, wired so that the last child's
    /// skip link inherits the subdivided node's own.
    fn subdivide(&mut self, node: usize)
        requires
            old(self).shape_ok(),
            old(self).nodes@.len() + 8 <= 2 + 64 * old(self).total + 64,
            1 <= node < old(self).nodes@.len(),
            old(self).nodes@[node as int].is_leaf(),
            old(self).nodes@[node as int].level < MAX_DEPTH,
        ensures
            final(self).shape_ok(),
            final(self).center == old(self).center,
            final(self).half == old(self).half,
            final(self).total == old(self).total,
            final(self).dirty == old(self).dirty,
            final(self).nodes@.len() == old(self).nodes@.len() + 8,
            !final(self).nodes@[node as int].is_leaf(),
            final(self).nodes@[node as int].children == old(self).nodes@.len(),
            final(self).nodes@[node as int].bounds() == old(self).nodes@[node as int].bounds(),
            final(self).nodes@[node as int].level == old(self).nodes@[node as int].level,
            final(self).nodes@[node as int].next == old(self).nodes@[node as int].next,
            final(self).nodes@[node as int].mass == old(self).nodes@[node as int].mass,
            final(self).nodes@[node as int].parent == old(self).nodes@[node as int].parent,
            forall|t: int|
                0 <= t < old(self).nodes@.len() && t != node ==> final(self).nodes@[t] == old(
                self).nodes@[t],
            forall|j: int|
                0 <= j < 8 ==> (#[trigger] final(self).nodes@[old(self).nodes@.len() as int
                    + j]).is_leaf() && final(self).nodes@[old(self).nodes@.len() as int
                    + j].mass == 0,
            leaf_mass_upto(final(self).nodes@, final(self).nodes@.len() as int)
                == leaf_mass_upto(old(self).nodes@, old(self).nodes@.len() as int) - old(
            self).nodes@[node as int].mass,
            final(self).nodes@ == spec_subdivided_at(old(self).nodes@, node as int),
        decreases 0int,
    {
        proof {
            assert(node_ok(self.nodes@, node as int));
        }
        let b = Bounds { center: self.nodes[node].center, half: self.nodes[node].half };
        let lv = self.nodes[node].level;
        let parent_next = self.nodes[node].next;
        let first = self.nodes.len();
        proof {
            assert forall|j: int| 0 <= j < 8 implies b.octant_box(j).wf() && b.octant_box(
                j).half as int % pow2i((MAX_DEPTH - (lv + 1)) as nat) == 0 by {
                lemma_octant_divisibility(b, j, lv);
                lemma_octant_box_wf(b, j);
            };
            lemma_octant_divisibility(b, 0, lv);
        }
        let mut j: usize = 0;
        while j < 8
            invariant
                self.center == old(self).center,
                self.half == old(self).half,
                self.total == old(self).total,
                self.dirty == old(self).dirty,
                self.nodes@.len() == first + j,
                j <= 8,
                first == old(self).nodes@.len(),
                first + 8 <= 2 + 64 * old(self).total + 64,
                old(self).total <= TOTAL_MASS_LIMIT,
                2 <= first,
                1 <= node < first,
                b == old(self).nodes@[node as int].bounds(),
                lv == old(self).nodes@[node as int].level,
                parent_next == old(self).nodes@[node as int].next,
                lv < MAX_DEPTH,
                b.wf(),
                b.half as int % 2 == 0,
                forall|t: int| 0 <= t < first ==> self.nodes@[t] == old(self).nodes@[t],
                forall|t: int|
                    0 <= t < j ==> #[trigger] self.nodes@[first + t] == (flat_child(b, lv,
                    first as int, parent_next as int, node as int, t)),
            decreases 8 - j,
        {
            let bj = b.make_octant(j);
            let nx: usize = if j == 7 {
                parent_next
            } else {
                first + j + 1
            };
            self.nodes.push(FlatNode {
                center: bj.center,
                half: bj.half,
                level: lv + 1,
                children: 0,
                next: nx,
                mass: 0,
                com: IVec3 { x: 0, y: 0, z: 0 },
                parent: Ghost(node as int),
            });
            j = j + 1;
        }
        let n = self.nodes[node];
        let nd = FlatNode { children: first, ..n };
        self.nodes.set(node, nd);
        proof {
            let s0 = old(self).nodes@;
            let s = self.nodes@;
            let len0 = s0.len() as int;
            assert forall|t: int| 1 <= t < s.len() implies #[trigger] node_ok(s, t) by {
                if t < len0 {
                    assert(node_ok(s0, t));
                    if t == node {
                        assert forall|jj: int| 0 <= jj < 8 implies #[trigger] child_ok(s,
                            t, jj) by {
                            assert(s[len0 + jj] == flat_child(b, lv, len0, parent_next as int,
                                node as int, jj));
                        };
                    } else {
                        assert forall|jj: int|
                            0 <= jj < 8 && !s[t].is_leaf() implies #[trigger] child_ok(s, t,
                            jj) by {
                            assert(child_ok(s0, t, jj));
                        };
                    }
                } else {
                    assert(s[t] == flat_child(b, lv, len0, parent_next as int, node as int, t
                        - len0));
                    lemma_octant_divisibility(b, t - len0, lv);
                    lemma_octant_box_wf(b, t - len0);
                    assert(s[t].next == 0 || 1 <= s[t].next < s.len()) by {
                        assert(node_ok(s0, node as int));
                    };
                }
            };
            assert forall|k: int| 2 <= k < s.len() implies #[trigger] parent_ok(s, k) by {
                if k < len0 {
                    assert(parent_ok(s0, k));
                } else {
                    assert(s[k] == flat_child(b, lv, len0, parent_next as int, node as int, k
                        - len0));
                }
            };
            assert forall|t: int|
                0 <= t < s.len() implies s[t] == spec_subdivided_at(s0, node as int)[t] by {
                if t >= len0 {
                    assert(s[t] == flat_child(b, lv, len0, parent_next as int, node as int, t
                        - len0));
                }
            };
            assert(s =~= spec_subdivided_at(s0, node as int));
            let s_before = s.update(node as int, s0[node as int]);
            lemma_lmu_same_prefix(s0, s_before, len0);
            assert forall|t: int| len0 <= t < s.len() implies (#[trigger] s_before[t]).mass == 0
                by {
                assert(s[t] == flat_child(b, lv, len0, parent_next as int, node as int, t
                    - len0));
            };
            lemma_lmu_zero_suffix(s_before, len0, s.len() as int);
            assert(s =~= s_before.update(node as int, s[node as int]));
            lemma_lmu_update(s_before, s, node as int, s.len() as int);
        }
    }
}

/// The child node that subdivision writes at offset `j` of a fresh block.
spec fn flat_child(b: Bounds, lv: u32, first: int, parent_next: int, parent: int, j: int)
    -> FlatNode {
    FlatNode {
        center: b.octant_box(j).center,
        half: b.octant_box(j).half,
        level: (lv + 1) as u32,
        children: 0,
        next: (if j == 7 {
            parent_next
        } else {
            first + j + 1
        }) as usize,
        mass: 0,
        com: IVec3 { x: 0, y: 0, z: 0 },
        parent: Ghost(parent),
    }
}

/// The two-slot array an empty tree starts from: the inert placeholder
/// and the root over the given cube.
pub closed spec fn fresh_flat_nodes(center: IVec3, half: i64) -> Seq<FlatNode> {
    seq![
        FlatNode {
            center: IVec3 { x: 0, y: 0, z: 0 },
            half: 1,
            level: MAX_DEPTH,
            children: 0,
            next: 0,
            mass: 0,
            com: IVec3 { x: 0, y: 0, z: 0 },
            parent: Ghost(0int),
        },
        FlatNode {
            center,
            half,
            level: 0,
            children: 0,
            next: 0,
            mass: 0,
            com: IVec3 { x: 0, y: 0, z: 0 },
            parent: Ghost(0int),
        },
    ]
}

/// One step of the aggregation sweep: recompute slot `i`'s mass and
/// center of mass from its eight children, exactly as the executable
/// sweep does.
spec fn sweep_step(s: Seq<FlatNode>, i: int) -> Seq<FlatNode> {
    if !(1 <= i < s.len()) || s[i].is_leaf() || !(i < s[i].children && s[i].children + 8
        <= s.len()) {
        s
    } else {
        let c = s[i].children as int;
        let m = s[c].mass + s[c + 1].mass + s[c + 2].mass + s[c + 3].mass + s[c + 4].mass + s[c
            + 5].mass + s[c + 6].mass + s[c + 7].mass;
        let wx = s[c].mass * s[c].com.x + s[c + 1].mass * s[c + 1].com.x + s[c + 2].mass * s[c
            + 2].com.x + s[c + 3].mass * s[c + 3].com.x + s[c + 4].mass * s[c + 4].com.x + s[c
            + 5].mass * s[c + 5].com.x + s[c + 6].mass * s[c + 6].com.x + s[c + 7].mass * s[c
            + 7].com.x;
        let wy = s[c].mass * s[c].com.y + s[c + 1].mass * s[c + 1].com.y + s[c + 2].mass * s[c
            + 2].com.y + s[c + 3].mass * s[c + 3].com.y + s[c + 4].mass * s[c + 4].com.y + s[c
            + 5].mass * s[c + 5].com.y + s[c + 6].mass * s[c + 6].com.y + s[c + 7].mass * s[c
            + 7].com.y;
        let wz = s[c].mass * s[c].com.z + s[c + 1].mass * s[c + 1].com.z + s[c + 2].mass * s[c
            + 2].com.z + s[c + 3].mass * s[c + 3].com.z + s[c + 4].mass * s[c + 4].com.z + s[c
            + 5].mass * s[c + 5].com.z + s[c + 6].mass * s[c + 6].com.z + s[c + 7].mass * s[c
            + 7].com.z;
        let com = if m > 0 {
            IVec3 {
                x: div_trunc(wx, m) as i64,
                y: div_trunc(wy, m) as i64,
                z: div_trunc(wz, m) as i64,
            }
        } else {
            IVec3 { x: 0, y: 0, z: 0 }
        };
        s.update(i, FlatNode { mass: m as i64, com, ..s[i] })
    }
}

/// The sweep's first `k` steps, slots processed from the top of the array
/// down.
spec fn spec_swept_upto(s: Seq<FlatNode>, k: nat) -> Seq<FlatNode>
    decreases k,
{
    if k == 0 {
        s
    } else {
        sweep_step(spec_swept_upto(s, (k - 1) as nat), s.len() - k)
    }
}

/// The slot index the octant descent reaches from slot `i`.
spec fn spec_descend(s: Seq<FlatNode>, i: int, p: IVec3) -> int
    decreases s.len() - i,
{
    if !(1 <= i < s.len()) {
        i
    } else if s[i].is_leaf() {
        i
    } else if i < s[i].children && s[i].children + 8 <= s.len() {
        spec_descend(s, s[i].children + s[i].bounds().octant_of(p), p)
    } else {
        i
    }
}

/// The array after subdividing leaf `i`: eight fresh children appended and
/// the slot rewired to point at them.
spec fn spec_subdivided_at(s: Seq<FlatNode>, i: int) -> Seq<FlatNode> {
    let first = s.len() as int;
    let b = s[i].bounds();
    let lv = s[i].level;
    let nx = s[i].next as int;
    (s + seq![flat_child(b, lv, first, nx, i, 0), flat_child(b, lv, first, nx, i, 1), flat_child(
        b, lv, first, nx, i, 2), flat_child(b, lv, first, nx, i, 3), flat_child(b, lv, first, nx,
        i, 4), flat_child(b, lv, first, nx, i, 5), flat_child(b, lv, first, nx, i, 6), flat_child(
        b, lv, first, nx, i, 7)]).update(i, FlatNode { children: first as usize, ..s[i] })
}

/// Level of the chain head, total so the chain's recursion measure is.
spec fn chain_level(s: Seq<FlatNode>, cur: int) -> int {
    if 0 <= cur < s.len() {
        s[cur].level as int
    } else {
        MAX_DEPTH as int
    }
}

/// The array after the subdivision chain that separates the stored point
/// `(q0, m0)` from the incoming `(p, m)` below the already-subdivided slot
/// `cur`: while both points share an octant the shared child is subdivided
/// in turn; at the depth cap they merge; once they diverge each settles in
/// its own child.
spec fn spec_chain(s: Seq<FlatNode>, cur: int, p: IVec3, m: int, q0: IVec3, m0: int) -> Seq<
    FlatNode>
    decreases MAX_DEPTH - chain_level(s, cur),
{
    if !(1 <= cur < s.len() && !s[cur].is_leaf() && cur < s[cur].children && s[cur].children + 8
        <= s.len() && s[cur].level < MAX_DEPTH) {
        s
    } else {
        let b = s[cur].bounds();
        let c = s[cur].children as int;
        let o1 = b.octant_of(p);
        let o2 = b.octant_of(q0);
        if o1 == o2 {
            let child = c + o1;
            if s[child].level >= MAX_DEPTH {
                s.update(child, FlatNode { mass: (m0 + m) as i64, com: q0, ..s[child] })
            } else if s[child].level == s[cur].level + 1 {
                spec_chain(spec_subdivided_at(s, child), child, p, m, q0, m0)
            } else {
                s
            }
        } else {
            s.update(c + o1, FlatNode { mass: m as i64, com: p, ..s[c + o1] }).update(c + o2,
                FlatNode { mass: m0 as i64, com: q0, ..s[c + o2] })
        }
    }
}

/// All stored masses are non-negative.
proof fn lemma_mass_nonneg_all(s: Seq<FlatNode>)
    requires
        forall|i: int| 1 <= i < s.len() ==> #[trigger] node_ok(s, i),
    ensures
        forall|i: int| 1 <= i < s.len() ==> (#[trigger] s[i]).mass >= 0,
{
    assert forall|i: int| 1 <= i < s.len() implies (#[trigger] s[i]).mass >= 0 by {
        assert(node_ok(s, i));
    };
}

/// One leaf's mass never exceeds the leaf-mass sum.
proof fn lemma_leaf_le_lmu(s: Seq<FlatNode>, k: int, n: int)
    requires
        1 <= k < n <= s.len(),
        s[k].is_leaf(),
        forall|i: int| 1 <= i < s.len() ==> (#[trigger] s[i]).mass >= 0,
    ensures
        s[k].mass <= leaf_mass_upto(s, n),
        0 <= leaf_mass_upto(s, n),
    decreases n,
{
    if n - 1 == k {
        lemma_lmu_nonneg(s, n - 1);
    } else {
        lemma_leaf_le_lmu(s, k, n - 1);
    }
}

/// Leaf-mass sums of non-negative masses are non-negative.
proof fn lemma_lmu_nonneg(s: Seq<FlatNode>, n: int)
    requires
        n <= s.len(),
        forall|i: int| 1 <= i < s.len() ==> (#[trigger] s[i]).mass >= 0,
    ensures
        0 <= leaf_mass_upto(s, n),
    decreases n,
{
    if n > 1 {
        lemma_lmu_nonneg(s, n - 1);
    }
}

/// Two arrays equal on a prefix have the same leaf-mass sum over it.
proof fn lemma_lmu_same_prefix(s1: Seq<FlatNode>, s2: Seq<FlatNode>, n: int)
    requires
        n <= s1.len(),
        n <= s2.len(),
        forall|t: int| 0 <= t < n ==> s1[t] == s2[t],
    ensures
        leaf_mass_upto(s1, n) == leaf_mass_upto(s2, n),
    decreases n,
{
    if n > 1 {
        lemma_lmu_same_prefix(s1, s2, n - 1);
    }
}

/// Extending over zero-mass slots leaves the leaf-mass sum unchanged.
proof fn lemma_lmu_zero_suffix(s: Seq<FlatNode>, n0: int, n: int)
    requires
        0 <= n0 <= n <= s.len(),
        forall|t: int| n0 <= t < n ==> (#[trigger] s[t]).mass == 0,
    ensures
        leaf_mass_upto(s, n) == leaf_mass_upto(s, n0),
    decreases n,
{
    if n > n0 && n > 1 {
        lemma_lmu_zero_suffix(s, n0, n - 1);
    }
}

/// Updating one slot shifts the leaf-mass sum by the difference of that
/// slot's leaf contribution.
proof fn lemma_lmu_update(s1: Seq<FlatNode>, s2: Seq<FlatNode>, k: int, n: int)
    requires
        0 <= k < s1.len(),
        s2 == s1.update(k, s2[k]),
        s1.len() == s2.len(),
        n <= s1.len(),
    ensures
        leaf_mass_upto(s2, n) == leaf_mass_upto(s1, n) + (if 1 <= k < n {
            (if s2[k].is_leaf() {
                s2[k].mass as int
            } else {
                0
            }) - (if s1[k].is_leaf() {
                s1[k].mass as int
            } else {
                0
            })
        } else {
            0
        }),
    decreases n,
{
    if n > 1 {
        lemma_lmu_update(s1, s2, k, n - 1);
    }
}

/// A mass/com-only update at a slot whose own well-formedness is kept
/// preserves the whole array's shape.
proof fn lemma_update_keeps_shape(s: Seq<FlatNode>, i: int, nd: FlatNode)
    requires
        1 <= i < s.len(),
        forall|t: int| 1 <= t < s.len() ==> #[trigger] node_ok(s, t),
        forall|k: int| 2 <= k < s.len() ==> #[trigger] parent_ok(s, k),
        nd.center == s[i].center,
        nd.half == s[i].half,
        nd.level == s[i].level,
        nd.children == s[i].children,
        nd.next == s[i].next,
        nd.parent == s[i].parent,
        node_ok(s.update(i, nd), i),
    ensures
        forall|t: int| 1 <= t < s.len() ==> #[trigger] node_ok(s.update(i, nd), t),
        forall|k: int| 2 <= k < s.len() ==> #[trigger] parent_ok(s.update(i, nd), k),
{
    let s2 = s.update(i, nd);
    assert forall|t: int| 1 <= t < s.len() implies #[trigger] node_ok(s2, t) by {
        assert(node_ok(s, t));
        if t != i {
            assert forall|jj: int| 0 <= jj < 8 && !s2[t].is_leaf() implies #[trigger] child_ok(
                s2, t, jj) by {
                assert(child_ok(s, t, jj));
            };
        }
    };
    assert forall|k: int| 2 <= k < s.len() implies #[trigger] parent_ok(s2, k) by {
        assert(parent_ok(s, k));
    };
}

impl Octree {
    /// One reverse sweep that recomputes every interior node's mass and
    /// center of mass from its children; children sit at higher indices
    /// than their parent, so each is final when its parent is visited.
    ///
    /// Conservation of mass: afterwards the root's aggregated mass equals
    /// the exact sum of all inserted masses, whatever the subdivision
    /// pattern, and every interior node's mass is exactly the sum of its
    /// children's.
    #[verifier::rlimit(100)]
    pub fn backpropagate(&mut self)
        requires
            old(self).inv(),
        ensures
            final(self).inv(),
            final(self).spec_dirty() == false,
            final(self).spec_total() == old(self).spec_total(),
            final(self).spec_bounds() == old(self).spec_bounds(),
            final(self).spec_root_mass() == old(self).spec_total(),
            final(self).spec_nodes() == old(self).spec_backpropagated(),
    {
        let ghost s0 = self.nodes@;
        proof {
            lemma_mass_nonneg_all(s0);
            assert forall|t: int| 0 <= t < s0.len() implies #[trigger] same_shape_at(
                self.nodes@, s0, t) by {};
        }
        let mut i: usize = self.nodes.len();
        while i > 1
            invariant
                base_ok(s0, self.total as int),
                self.center == old(self).center,
                self.half == old(self).half,
                self.total == old(self).total,
                self.dirty == old(self).dirty,
                s0 == old(self).nodes@,
                s0[1].center == self.center && s0[1].half == self.half && s0[1].level == 0
                    && s0[1].next == 0,
                s0[0].is_leaf() && s0[0].next == 0 && s0[0].mass == 0,
                s0.len() <= 2 + 64 * self.total,
                1 <= i <= s0.len(),
                sweep_ok(*self, s0, i as int),
                self.nodes@ == spec_swept_upto(s0, (s0.len() - i) as nat),
            decreases i,
        {
            i = i - 1;
            proof {
                assert(spec_swept_upto(s0, (s0.len() - i) as nat) == sweep_step(spec_swept_upto(
                    s0, (s0.len() - i - 1) as nat), i as int));
            }
            if self.nodes[i].children != 0 {
                self.recompute(i, Ghost(s0));
            } else {
                proof {
                    assert(same_shape_at(self.nodes@, s0, i as int));
                    assert forall|t: int|
                        i <= t < s0.len() implies #[trigger] processed_at(self.nodes@, s0,
                        t) by {
                        if t > i {
                            assert(processed_at(self.nodes@, s0, t));
                        }
                    };
                    assert(sweep_step(self.nodes@, i as int) == self.nodes@);
                }
            }
        }
        self.dirty = false;
        proof {
            let s = self.nodes@;
            let len = s0.len() as int;
            lemma_mass_nonneg_all(s0);
            lemma_lmu_same_leaves(s, s0, len);
            assert(settled(s)) by {
                assert forall|t: int|
                    1 <= t < s.len() && !(#[trigger] s[t]).is_leaf() implies {
                    &&& s[t].mass as int == block_mass(s, s[t].children as int)
                    &&& (s[t].mass > 0 ==> s[t].bounds().covers(s[t].com))
                    &&& (s[t].mass == 0 ==> s[t].com == (IVec3 { x: 0, y: 0, z: 0 }))
                } by {
                    assert(processed_at(s, s0, t));
                    assert(same_shape_at(s, s0, t));
                };
            };
            if s0[1].is_leaf() {
                if s0.len() > 2 {
                    assert(parent_ok(s0, 2));
                    assert(false);
                }
                assert(leaf_mass_upto(s0, 2) == s0[1].mass) by {
                    reveal_with_fuel(leaf_mass_upto, 3);
                };
                assert(same_shape_at(s, s0, 1));
            } else {
                assert(processed_at(s, s0, 1));
                lemma_rmu_root(s0, len);
            }
            assert forall|t: int| 1 <= t < s.len() implies #[trigger] node_ok(s, t) by {};
        }
    }

    /// Recomputes one interior node's aggregate from its eight (already
    /// final) children.
    #[verifier::rlimit(100)]
    fn recompute(&mut self, i: usize, gs0: Ghost<Seq<FlatNode>>)
        requires
            base_ok(gs0@, old(self).total as int),
            sweep_ok(*old(self), gs0@, i as int + 1),
            1 <= i,
            i as int + 1 <= gs0@.len(),
            !old(self).nodes@[i as int].is_leaf(),
        ensures
            sweep_ok(*final(self), gs0@, i as int),
            final(self).center == old(self).center,
            final(self).half == old(self).half,
            final(self).total == old(self).total,
            final(self).dirty == old(self).dirty,
            final(self).nodes@ == sweep_step(old(self).nodes@, i as int),
    {
        let ghost s0 = gs0@;
        let ghost s = self.nodes@;
        let ghost len = s0.len() as int;
        let n = self.nodes[i];
        let c = n.children;
        proof {
            assert(node_ok(s, i as int));
            assert(same_shape_at(s, s0, i as int));
            lemma_children_final(s, s0, i as int);
        }
        let n0 = self.nodes[c];
        let n1 = self.nodes[c + 1];
        let n2 = self.nodes[c + 2];
        let n3 = self.nodes[c + 3];
        let n4 = self.nodes[c + 4];
        let n5 = self.nodes[c + 5];
        let n6 = self.nodes[c + 6];
        let n7 = self.nodes[c + 7];
        let sum: i64 = n0.mass + n1.mass + n2.mass + n3.mass + n4.mass + n5.mass + n6.mass
            + n7.mass;
        proof {
            lemma_mass_nonneg_all(s0);
            assert(sum as int == reach_mass_upto(s0, i as int, len));
            lemma_rmu_le_lmu(s0, i as int, len);
            lemma_settled_ranges(s, s0, c as int);
            lemma_settled_ranges(s, s0, c + 1);
            lemma_settled_ranges(s, s0, c + 2);
            lemma_settled_ranges(s, s0, c + 3);
            lemma_settled_ranges(s, s0, c + 4);
            lemma_settled_ranges(s, s0, c + 5);
            lemma_settled_ranges(s, s0, c + 6);
            lemma_settled_ranges(s, s0, c + 7);
            lemma_child_products(n0.mass as int, n0.com.x as int, n0.com.y as int,
                n0.com.z as int);
            lemma_child_products(n1.mass as int, n1.com.x as int, n1.com.y as int,
                n1.com.z as int);
            lemma_child_products(n2.mass as int, n2.com.x as int, n2.com.y as int,
                n2.com.z as int);
            lemma_child_products(n3.mass as int, n3.com.x as int, n3.com.y as int,
                n3.com.z as int);
            lemma_child_products(n4.mass as int, n4.com.x as int, n4.com.y as int,
                n4.com.z as int);
            lemma_child_products(n5.mass as int, n5.com.x as int, n5.com.y as int,
                n5.com.z as int);
            lemma_child_products(n6.mass as int, n6.com.x as int, n6.com.y as int,
                n6.com.z as int);
            lemma_child_products(n7.mass as int, n7.com.x as int, n7.com.y as int,
                n7.com.z as int);
        }
        let wx: i128 = (n0.mass as i128) * (n0.com.x as i128) + (n1.mass as i128) * (
        n1.com.x as i128) + (n2.mass as i128) * (n2.com.x as i128) + (n3.mass as i128) * (
        n3.com.x as i128) + (n4.mass as i128) * (n4.com.x as i128) + (n5.mass as i128) * (
        n5.com.x as i128) + (n6.mass as i128) * (n6.com.x as i128) + (n7.mass as i128) * (
        n7.com.x as i128);
        let wy: i128 = (n0.mass as i128) * (n0.com.y as i128) + (n1.mass as i128) * (
        n1.com.y as i128) + (n2.mass as i128) * (n2.com.y as i128) + (n3.mass as i128) * (
        n3.com.y as i128) + (n4.mass as i128) * (n4.com.y as i128) + (n5.mass as i128) * (
        n5.com.y as i128) + (n6.mass as i128) * (n6.com.y as i128) + (n7.mass as i128) * (
        n7.com.y as i128);
        let wz: i128 = (n0.mass as i128) * (n0.com.z as i128) + (n1.mass as i128) * (
        n1.com.z as i128) + (n2.mass as i128) * (n2.com.z as i128) + (n3.mass as i128) * (
        n3.com.z as i128) + (n4.mass as i128) * (n4.com.z as i128) + (n5.mass as i128) * (
        n5.com.z as i128) + (n6.mass as i128) * (n6.com.z as i128) + (n7.mass as i128) * (
        n7.com.z as i128);
        let ncom: IVec3 = if sum > 0 {
            proof {
                lemma_children_weighted_box(self.nodes@, s0, i as int, c as int);
                crate::numeric::lemma_div_trunc_range(wx as int, sum as int, n.center.x - n.half,
                    n.center.x + n.half);
                crate::numeric::lemma_div_trunc_range(wy as int, sum as int, n.center.y - n.half,
                    n.center.y + n.half);
                crate::numeric::lemma_div_trunc_range(wz as int, sum as int, n.center.z - n.half,
                    n.center.z + n.half);
            }
            IVec3 {
                x: div_trunc_i128(wx, sum as i128) as i64,
                y: div_trunc_i128(wy, sum as i128) as i64,
                z: div_trunc_i128(wz, sum as i128) as i64,
            }
        } else {
            IVec3 { x: 0, y: 0, z: 0 }
        };
        let nd = FlatNode { mass: sum, com: ncom, ..n };
        proof {
            assert(block_mass(s, s[i as int].children as int) == sum);
        }
        self.nodes.set(i, nd);
        proof {
            lemma_after_recompute(s, self.nodes@, s0, i as int, nd);
            assert(self.nodes@ == sweep_step(s, i as int));
        }
    }
}

/// Writing the recomputed aggregate back re-establishes every sweep fact,
/// now including the node itself.
#[verifier::rlimit(100)]
proof fn lemma_after_recompute(s: Seq<FlatNode>, s2: Seq<FlatNode>, s0: Seq<FlatNode>, i: int,
    nd: FlatNode)
    requires
        s.len() == s0.len(),
        1 <= i < s.len(),
        s2 == s.update(i, nd),
        forall|t: int| 1 <= t < s.len() ==> #[trigger] node_ok(s, t),
        forall|t: int| 2 <= t < s.len() ==> #[trigger] parent_ok(s, t),
        forall|t: int| 0 <= t < s0.len() ==> #[trigger] same_shape_at(s, s0, t),
        forall|t: int| i + 1 <= t < s0.len() ==> #[trigger] processed_at(s, s0, t),
        !s[i].is_leaf(),
        nd.center == s[i].center,
        nd.half == s[i].half,
        nd.level == s[i].level,
        nd.children == s[i].children,
        nd.next == s[i].next,
        nd.parent == s[i].parent,
        nd.mass as int == reach_mass_upto(s0, i, s0.len() as int),
        0 <= nd.mass <= TOTAL_MASS_LIMIT,
        nd.mass as int <= leaf_mass_upto(s0, s0.len() as int),
        nd.mass as int == block_mass(s, s[i].children as int),
        nd.mass > 0 ==> (Bounds { center: nd.center, half: nd.half }).covers(nd.com),
        nd.mass == 0 ==> nd.com == (IVec3 { x: 0, y: 0, z: 0 }),
    ensures
        forall|t: int| 1 <= t < s2.len() ==> #[trigger] node_ok(s2, t),
        forall|t: int| 2 <= t < s2.len() ==> #[trigger] parent_ok(s2, t),
        forall|t: int| 0 <= t < s0.len() ==> #[trigger] same_shape_at(s2, s0, t),
        forall|t: int| i <= t < s0.len() ==> #[trigger] processed_at(s2, s0, t),
        s2[0] == s[0],
        i != 1 ==> s2[1] == s[1],
        s2[1].center == s[1].center && s2[1].half == s[1].half && s2[1].level == s[1].level
            && s2[1].next == s[1].next,
{
    assert(node_ok(s, i));
    let c = s[i].children as int;
    assert(node_ok(s2, i)) by {
        assert forall|jj: int| 0 <= jj < 8 implies #[trigger] child_ok(s2, i, jj) by {
            assert(child_ok(s, i, jj));
        };
    };
    lemma_update_keeps_shape(s, i, nd);
    assert forall|t: int| 0 <= t < s0.len() implies #[trigger] same_shape_at(s2, s0, t) by {
        assert(same_shape_at(s, s0, t));
        if t == i {
            assert(!s0[i].is_leaf());
        }
    };
    assert(processed_at(s2, s0, i)) by {
        assert(block_mass(s2, c) == block_mass(s, c));
    };
    assert forall|t: int| i <= t < s0.len() implies #[trigger] processed_at(s2, s0, t) by {
        if t > i {
            assert(processed_at(s, s0, t));
            assert(node_ok(s, t));
            assert(same_shape_at(s, s0, t));
            assert(s2[t] == s[t]);
            if !s[t].is_leaf() {
                assert(block_mass(s2, s[t].children as int) == block_mass(s, s[
                    t].children as int));
            }
            assert(processed_at(s2, s0, t));
        } else {
            assert(processed_at(s2, s0, i));
        }
    };
}

/// During the sweep, the eight children of the next interior node are all
/// final, and the mass genuinely under the node splits over them.
proof fn lemma_children_final(s: Seq<FlatNode>, s0: Seq<FlatNode>, i: int)
    requires
        s.len() == s0.len(),
        forall|t: int| 1 <= t < s0.len() ==> #[trigger] node_ok(s0, t),
        forall|t: int| 2 <= t < s0.len() ==> #[trigger] parent_ok(s0, t),
        forall|t: int| 1 <= t < s.len() ==> #[trigger] node_ok(s, t),
        forall|t: int| 0 <= t < s0.len() ==> #[trigger] same_shape_at(s, s0, t),
        forall|t: int| i + 1 <= t < s0.len() ==> #[trigger] processed_at(s, s0, t),
        1 <= i < s.len(),
        !s[i].is_leaf(),
    ensures
        child_settled(s, s0, s[i].children as int),
        child_settled(s, s0, s[i].children as int + 1),
        child_settled(s, s0, s[i].children as int + 2),
        child_settled(s, s0, s[i].children as int + 3),
        child_settled(s, s0, s[i].children as int + 4),
        child_settled(s, s0, s[i].children as int + 5),
        child_settled(s, s0, s[i].children as int + 6),
        child_settled(s, s0, s[i].children as int + 7),
        reach_mass_upto(s0, i, s0.len() as int) == block_rmu(s0, s[i].children as int,
            s0.len() as int),
{
    let len = s0.len() as int;
    let c = s[i].children as int;
    assert(node_ok(s, i));
    assert(same_shape_at(s, s0, i));
    lemma_mass_nonneg_all(s0);
    assert(!s0[i].is_leaf());
    lemma_rmu_split(s0, i, len);
    assert(s0[i].children as int == c);
    assert(same_shape_at(s, s0, c) && node_ok(s, c));
    if !s0[c].is_leaf() {
        assert(processed_at(s, s0, c));
    }
    lemma_one_child_settled(s, s0, c);
    assert(same_shape_at(s, s0, c + 1) && node_ok(s, c + 1));
    if !s0[c + 1].is_leaf() {
        assert(processed_at(s, s0, c + 1));
    }
    lemma_one_child_settled(s, s0, c + 1);
    assert(same_shape_at(s, s0, c + 2) && node_ok(s, c + 2));
    if !s0[c + 2].is_leaf() {
        assert(processed_at(s, s0, c + 2));
    }
    lemma_one_child_settled(s, s0, c + 2);
    assert(same_shape_at(s, s0, c + 3) && node_ok(s, c + 3));
    if !s0[c + 3].is_leaf() {
        assert(processed_at(s, s0, c + 3));
    }
    lemma_one_child_settled(s, s0, c + 3);
    assert(same_shape_at(s, s0, c + 4) && node_ok(s, c + 4));
    if !s0[c + 4].is_leaf() {
        assert(processed_at(s, s0, c + 4));
    }
    lemma_one_child_settled(s, s0, c + 4);
    assert(same_shape_at(s, s0, c + 5) && node_ok(s, c + 5));
    if !s0[c + 5].is_leaf() {
        assert(processed_at(s, s0, c + 5));
    }
    lemma_one_child_settled(s, s0, c + 5);
    assert(same_shape_at(s, s0, c + 6) && node_ok(s, c + 6));
    if !s0[c + 6].is_leaf() {
        assert(processed_at(s, s0, c + 6));
    }
    lemma_one_child_settled(s, s0, c + 6);
    assert(same_shape_at(s, s0, c + 7) && node_ok(s, c + 7));
    if !s0[c + 7].is_leaf() {
        assert(processed_at(s, s0, c + 7));
    }
    lemma_one_child_settled(s, s0, c + 7);
}

/// A settled slot's mass and center of mass are within the global ranges.
proof fn lemma_settled_ranges(s: Seq<FlatNode>, s0: Seq<FlatNode>, t: int)
    requires
        child_settled(s, s0, t),
        node_ok(s, t),
        leaf_mass_upto(s0, s0.len() as int) <= TOTAL_MASS_LIMIT,
    ensures
        0 <= s[t].mass <= TOTAL_MASS_LIMIT,
        -COORD_LIMIT <= s[t].com.x <= COORD_LIMIT,
        -COORD_LIMIT <= s[t].com.y <= COORD_LIMIT,
        -COORD_LIMIT <= s[t].com.z <= COORD_LIMIT,
{
}

impl Octree {
    /// Exact force the tree exerts on a query point, by the theta descent
    /// over the stored (backpropagated) aggregates.
    pub closed spec fn spec_force(self, q: IVec3, mq: int, k: int, tn: int, td: int) -> (
        int,
        int,
        int,
    ) {
        node_force(self.nodes@, 1, q, mq, k, tn, td)
    }

    /// Number of array slots a force query visits.
    pub closed spec fn spec_visits(self, q: IVec3, tn: int, td: int) -> int {
        flat_visits(self.nodes@, 1, q, tn, td)
    }

    /// Net repulsion on a point of mass `mass`: a single loop over the
    /// array, no recursion and no stack. A node that is a leaf, or whose
    /// angular size from the point falls below theta, contributes its
    /// aggregate and the traversal jumps over its whole subtree through
    /// `next`; otherwise it steps into its first child.
    #[verifier::rlimit(100)]
    pub fn get_force(&self, point: IVec3, mass: i64, coeff: i64, theta_num: i64, theta_den: i64)
        -> (f: Force3)
        requires
            self.inv(),
            !self.spec_dirty(),
            point.bounded(COORD_LIMIT as int),
            0 <= mass <= POINT_MASS_LIMIT,
            0 <= coeff <= COEFF_LIMIT,
            0 <= theta_num <= THETA_LIMIT,
            1 <= theta_den <= THETA_LIMIT,
        ensures
            f.x == self.spec_force(point, mass as int, coeff as int, theta_num as int,
                theta_den as int).0,
            f.y == self.spec_force(point, mass as int, coeff as int, theta_num as int,
                theta_den as int).1,
            f.z == self.spec_force(point, mass as int, coeff as int, theta_num as int,
                theta_den as int).2,
    {
        let ghost s = self.nodes@;
        let ghost mq = mass as int;
        let ghost k = coeff as int;
        let ghost tn = theta_num as int;
        let ghost td = theta_den as int;
        let ghost cap = (k * mq) * (TOTAL_MASS_LIMIT as int);
        let ghost m0 = crate::barnes_hut::size_cap(MAX_DEPTH as nat);
        let mut force = Force3 { x: 0, y: 0, z: 0 };
        let mut node: usize = 1;
        let ghost mut stack: Seq<int> = seq![1int];
        proof {
            crate::barnes_hut::lemma_size_cap_full();
            assert(s.len() >= 2);
            assert(node_ok(s, 1));
            assert(s[1].level == 0);
            assert(stack.drop_first() =~= Seq::<int>::empty());
            assert(0 <= cap <= 10_000_000_000_000_000_000_000_000) by (nonlinear_arith)
                requires
                    0 <= k <= 1_000_000_000_000,
                    0 <= mq <= 1_000_000,
                    cap == (k * mq) * 10_000_000,
            ;
            assert(stack_measure(s, Seq::<int>::empty()) == 0);
            assert(stack[0] == 1int);
            assert(stack_measure(s, stack) == size_cap((MAX_DEPTH - 0) as nat) + 0);
            assert((MAX_DEPTH - 0) as nat == MAX_DEPTH as nat);
            assert(stack_force(s, Seq::<int>::empty(), point, mq, k, tn, td) == (0int, 0int,
                0int));
            assert(stack_force(s, stack, point, mq, k, tn, td).0 == node_force(s, 1, point, mq,
                k, tn, td).0);
            assert(stack_force(s, stack, point, mq, k, tn, td).1 == node_force(s, 1, point, mq,
                k, tn, td).1);
            assert(stack_force(s, stack, point, mq, k, tn, td).2 == node_force(s, 1, point, mq,
                k, tn, td).2);
        }
        while node != 0
            invariant
                self.inv(),
                !self.spec_dirty(),
                s == self.nodes@,
                point.bounded(COORD_LIMIT as int),
                mq == mass as int && k == coeff as int && tn == theta_num as int && td
                    == theta_den as int,
                0 <= mass <= POINT_MASS_LIMIT,
                0 <= coeff <= COEFF_LIMIT,
                0 <= theta_num <= THETA_LIMIT,
                1 <= theta_den <= THETA_LIMIT,
                cap == (k * mq) * (TOTAL_MASS_LIMIT as int),
                0 <= cap <= 10_000_000_000_000_000_000_000_000,
                m0 == 19_173_961,
                node != 0 ==> stack.len() >= 1 && stack[0] == node,
                node == 0 ==> stack.len() == 0,
                stack_wf(s, stack),
                0 <= stack_measure(s, stack) <= m0,
                force.x + stack_force(s, stack, point, mq, k, tn, td).0 == node_force(s, 1,
                    point, mq, k, tn, td).0,
                force.y + stack_force(s, stack, point, mq, k, tn, td).1 == node_force(s, 1,
                    point, mq, k, tn, td).1,
                force.z + stack_force(s, stack, point, mq, k, tn, td).2 == node_force(s, 1,
                    point, mq, k, tn, td).2,
                abs_i(force.x as int) <= cap * (m0 - stack_measure(s, stack)),
                abs_i(force.y as int) <= cap * (m0 - stack_measure(s, stack)),
                abs_i(force.z as int) <= cap * (m0 - stack_measure(s, stack)),
            decreases stack_measure(s, stack),
        {
            proof {
                assert(stack_elem_ok(s, stack, 0));
                assert(node_ok(s, node as int));
                lemma_stack_measure_pos(s, stack);
            }
            let n = self.nodes[node];
            let b = Bounds { center: n.center, half: n.half };
            let far = far_test(&b, point, theta_num, theta_den);
            if n.children == 0 || far {
                // Aggregate contribution, then skip the whole subtree.
                let ghost prev = stack;
                let ghost m_before = stack_measure(s, prev);
                let ghost d_head = size_cap((MAX_DEPTH - s[node as int].level) as nat);
                proof {
                    if !s[node as int].is_leaf() {
                        assert(settled(s));
                    }
                    crate::barnes_hut::lemma_size_cap_pos((MAX_DEPTH - s[
                        node as int].level) as nat);
                    lemma_pair_force_bound(point, mq, n.com.x as int, n.com.y as int,
                        n.com.z as int, n.mass as int, k);
                    assert((k * mq) * (n.mass as int) <= cap) by (nonlinear_arith)
                        requires
                            0 <= k * mq,
                            0 <= n.mass <= 10_000_000,
                            cap == (k * mq) * 10_000_000,
                    ;
                    assert(k * mq * (n.mass as int) == (k * mq) * (n.mass as int));
                    lemma_stack_measure_nonneg(s, prev.drop_first());
                    assert(m_before == d_head + stack_measure(s, prev.drop_first()));
                    assert(abs_i(force.x as int) + cap <= cap * ((m0 - m_before) + 1))
                        by (nonlinear_arith)
                        requires
                            0 <= cap,
                            abs_i(force.x as int) <= cap * (m0 - m_before),
                    ;
                    assert(abs_i(force.y as int) + cap <= cap * ((m0 - m_before) + 1))
                        by (nonlinear_arith)
                        requires
                            0 <= cap,
                            abs_i(force.y as int) <= cap * (m0 - m_before),
                    ;
                    assert(abs_i(force.z as int) + cap <= cap * ((m0 - m_before) + 1))
                        by (nonlinear_arith)
                        requires
                            0 <= cap,
                            abs_i(force.z as int) <= cap * (m0 - m_before),
                    ;
                    assert(cap * ((m0 - m_before) + 1) <= cap * (m0 - (m_before - d_head)))
                        by (nonlinear_arith)
                        requires
                            0 <= cap,
                            d_head >= 1,
                    ;
                    assert(cap * (m0 - m_before) <= cap * m0) by (nonlinear_arith)
                        requires
                            0 <= cap,
                            m_before >= 0,
                    ;
                    assert(cap * m0 <= 200_000_000_000_000_000_000_000_000_000_000)
                        by (nonlinear_arith)
                        requires
                            0 <= cap <= 10_000_000_000_000_000_000_000_000,
                            m0 == 19_173_961,
                    ;
                }
                accumulate_pair(point, mass, n.com, n.mass, coeff, &mut force);
                proof {
                    lemma_stack_wf_drop(s, prev);
                    stack = stack.drop_first();
                    if prev.len() >= 2 {
                        assert(s[prev[0]].next as int == prev[1]);
                        assert(stack[0] == prev[1]);
                        assert(stack_elem_ok(s, prev, 1));
                    } else {
                        assert(s[prev[prev.len() - 1]].next == 0);
                    }
                    lemma_stack_measure_nonneg(s, stack);
                    assert(stack_measure(s, stack) == m_before - d_head);
                }
                node = n.next;
            } else {
                // Step into the first of the eight children.
                let ghost prev = stack;
                let ghost rest = stack.drop_first();
                let ghost m_before = stack_measure(s, prev);
                let c = n.children;
                proof {
                    assert(child_ok(s, node as int, 0) && child_ok(s, node as int, 1)
                        && child_ok(s, node as int, 2) && child_ok(s, node as int, 3)
                        && child_ok(s, node as int, 4) && child_ok(s, node as int, 5)
                        && child_ok(s, node as int, 6) && child_ok(s, node as int, 7));
                    lemma_stack_force_block(s, c as int, rest, point, mq, k, tn, td);
                    lemma_stack_measure_block(s, c as int, rest);
                    lemma_stack_wf_drop(s, prev);
                    if rest.len() > 0 {
                        assert(s[prev[0]].next as int == prev[1]);
                        assert(rest[0] == prev[1]);
                    } else {
                        assert(s[prev[prev.len() - 1]].next == 0);
                    }
                    lemma_stack_wf_push_block(s, node as int, rest);
                    assert forall|j: int|
                        0 <= j < 8 implies #[trigger] s[c + j].level == s[node as int].level
                        + 1 by {
                        assert(child_ok(s, node as int, j));
                    };
                    lemma_block_measure_value(s, c as int, s[node as int].level as int);
                    assert(s[c as int].level == s[node as int].level + 1);
                    assert(m_before == size_cap((MAX_DEPTH - s[node as int].level) as nat)
                        + stack_measure(s, rest));
                    stack = block_seq(c as int) + rest;
                    assert(stack[0] == c as int);
                    assert(stack_measure(s, stack) == m_before - 1);
                    lemma_stack_measure_nonneg(s, stack);
                    assert(cap * (m0 - m_before) <= cap * (m0 - (m_before - 1)))
                        by (nonlinear_arith)
                        requires
                            0 <= cap,
                    ;
                }
                node = c;
            }
        }
        proof {
            assert(stack_force(s, stack, point, mq, k, tn, td) == (0int, 0int, 0int));
        }
        force
    }
}

impl Octree {
    /// Counts the array slots a force query with these parameters visits:
    /// one per aggregate accepted, plus every interior node descended into.
    pub fn visit_count(&self, point: IVec3, theta_num: i64, theta_den: i64) -> (n: u64)
        requires
            self.inv(),
            point.bounded(COORD_LIMIT as int),
            0 <= theta_num <= THETA_LIMIT,
            1 <= theta_den <= THETA_LIMIT,
        ensures
            n as int == self.spec_visits(point, theta_num as int, theta_den as int),
            1 <= n <= 19_173_961,
    {
        proof {
            assert(node_ok(self.nodes@, 1));
            lemma_flat_visits_cap(self.nodes@, 1, point, theta_num as int, theta_den as int);
            crate::barnes_hut::lemma_size_cap_full();
            crate::barnes_hut::lemma_size_cap_mono((MAX_DEPTH - self.nodes@[1].level) as nat,
                MAX_DEPTH as nat);
        }
        self.count_from(1, point, theta_num, theta_den)
    }

    /// Visit count of the subtree rooted at slot `i`.
    #[verifier::rlimit(100)]
    fn count_from(&self, i: usize, point: IVec3, theta_num: i64, theta_den: i64) -> (n: u64)
        requires
            self.inv(),
            1 <= i < self.nodes@.len(),
            point.bounded(COORD_LIMIT as int),
            0 <= theta_num <= THETA_LIMIT,
            1 <= theta_den <= THETA_LIMIT,
        ensures
            n as int == flat_visits(self.nodes@, i as int, point, theta_num as int,
                theta_den as int),
            1 <= n as int <= size_cap((MAX_DEPTH - self.nodes@[i as int].level) as nat),
        decreases self.nodes@.len() - i,
    {
        let ghost s = self.nodes@;
        let ghost tn = theta_num as int;
        let ghost td = theta_den as int;
        proof {
            assert(node_ok(s, i as int));
            lemma_flat_visits_cap(s, i as int, point, tn, td);
        }
        let nd = self.nodes[i];
        let b = Bounds { center: nd.center, half: nd.half };
        let far = far_test(&b, point, theta_num, theta_den);
        if nd.children == 0 || far {
            return 1;
        }
        let c = nd.children;
        proof {
            assert(child_ok(s, i as int, 0) && child_ok(s, i as int, 1) && child_ok(s,
                i as int, 2) && child_ok(s, i as int, 3) && child_ok(s, i as int, 4)
                && child_ok(s, i as int, 5) && child_ok(s, i as int, 6) && child_ok(s,
                i as int, 7));
            crate::barnes_hut::lemma_size_cap_full();
            let d1 = (MAX_DEPTH - (s[i as int].level + 1)) as nat;
            crate::barnes_hut::lemma_size_cap_mono(d1, MAX_DEPTH as nat);
        }
        let mut n: u64 = 1;
        n = n + self.count_from(c, point, theta_num, theta_den);
        n = n + self.count_from(c + 1, point, theta_num, theta_den);
        n = n + self.count_from(c + 2, point, theta_num, theta_den);
        n = n + self.count_from(c + 3, point, theta_num, theta_den);
        n = n + self.count_from(c + 4, point, theta_num, theta_den);
        n = n + self.count_from(c + 5, point, theta_num, theta_den);
        n = n + self.count_from(c + 6, point, theta_num, theta_den);
        n = n + self.count_from(c + 7, point, theta_num, theta_den);
        n
    }
}

/// A query visits at least one and at most a depth-capped number of slots.
proof fn lemma_flat_visits_cap(s: Seq<FlatNode>, i: int, q: IVec3, tn: int, td: int)
    requires
        forall|t: int| 1 <= t < s.len() ==> #[trigger] node_ok(s, t),
        1 <= i < s.len(),
    ensures
        1 <= flat_visits(s, i, q, tn, td) <= size_cap((MAX_DEPTH - s[i].level) as nat),
    decreases s.len() - i,
{
    assert(node_ok(s, i));
    crate::barnes_hut::lemma_size_cap_pos((MAX_DEPTH - s[i].level) as nat);
    if !(s[i].is_leaf() || is_far(s[i].bounds(), q, tn, td)) && i < s[i].children && s[
        i].children + 8 <= s.len() {
        let c = s[i].children as int;
        assert(child_ok(s, i, 0) && child_ok(s, i, 1) && child_ok(s, i, 2) && child_ok(s, i, 3)
            && child_ok(s, i, 4) && child_ok(s, i, 5) && child_ok(s, i, 6) && child_ok(s, i,
            7));
        lemma_flat_visits_cap(s, c, q, tn, td);
        lemma_flat_visits_cap(s, c + 1, q, tn, td);
        lemma_flat_visits_cap(s, c + 2, q, tn, td);
        lemma_flat_visits_cap(s, c + 3, q, tn, td);
        lemma_flat_visits_cap(s, c + 4, q, tn, td);
        lemma_flat_visits_cap(s, c + 5, q, tn, td);
        lemma_flat_visits_cap(s, c + 6, q, tn, td);
        lemma_flat_visits_cap(s, c + 7, q, tn, td);
        let d = (MAX_DEPTH - s[i].level) as nat;
        assert(size_cap(d) == 1 + 8 * size_cap((d - 1) as nat));
        assert((MAX_DEPTH - (s[i].level + 1)) as nat == (d - 1) as nat);
    }
}

impl Octree {
    /// The occupied-leaf aggregates of the flat tree, in slot order of the
    /// recursive structure.
    pub closed spec fn spec_aggregates(self) -> Seq<PointMass> {
        flat_aggregates(self.nodes@, 1)
    }

    /// Exactness oracle for the flat traversal: with theta zero the
    /// acceptance test never fires and the force equals the exact pairwise
    /// sum over the occupied leaves.
    pub proof fn lemma_theta_zero_exact(self, q: IVec3, mq: int, k: int, td: int)
        requires
            self.inv(),
            1 <= td,
            0 <= mq,
            0 <= k,
        ensures
            self.spec_force(q, mq, k, 0, td) == pairwise_force(self.spec_aggregates(), q, mq,
                k),
    {
        lemma_flat_theta_zero(self.nodes@, 1, q, mq, k, td);
    }

    /// Every observable of the flat tree is a function of its node array
    /// alone: two trees with equal arrays answer every query alike. With
    /// the exact build and sweep equations this makes a rebuild from the
    /// same inputs reproduce identical aggregates and forces.
    pub proof fn lemma_same_nodes_same_observables(t1: Octree, t2: Octree, q: IVec3, mq: int,
        k: int, tn: int, td: int)
        requires
            t1.spec_nodes() == t2.spec_nodes(),
        ensures
            t1.spec_force(q, mq, k, tn, td) == t2.spec_force(q, mq, k, tn, td),
            t1.spec_visits(q, tn, td) == t2.spec_visits(q, tn, td),
            t1.spec_aggregates() == t2.spec_aggregates(),
            t1.spec_root_mass() == t2.spec_root_mass(),
            t1.spec_len() == t2.spec_len(),
    {
    }

    /// Monotone cost in theta, for the flat traversal as well: raising the
    /// threshold never makes a query visit more slots.
    pub proof fn lemma_visits_monotone(self, q: IVec3, tn1: int, td1: int, tn2: int, td2: int)
        requires
            self.inv(),
            0 <= tn1,
            1 <= td1,
            0 <= tn2,
            1 <= td2,
            tn1 * td2 <= tn2 * td1,
        ensures
            self.spec_visits(q, tn2, td2) <= self.spec_visits(q, tn1, td1),
    {
        lemma_flat_visits_monotone(self.nodes@, 1, q, tn1, td1, tn2, td2);
    }
}

/// The point masses held by the occupied leaves under slot `i`.
spec fn flat_aggregates(s: Seq<FlatNode>, i: int) -> Seq<PointMass>
    decreases s.len() - i,
{
    if !(1 <= i < s.len()) {
        Seq::empty()
    } else if s[i].is_leaf() {
        if s[i].mass > 0 {
            seq![PointMass { x: s[i].com.x as int, y: s[i].com.y as int, z: s[i].com.z as int,
                mass: s[i].mass as int }]
        } else {
            Seq::empty()
        }
    } else if i < s[i].children && s[i].children + 8 <= s.len() {
        let c = s[i].children as int;
        flat_aggregates(s, c) + flat_aggregates(s, c + 1) + flat_aggregates(s, c + 2)
            + flat_aggregates(s, c + 3) + flat_aggregates(s, c + 4) + flat_aggregates(s, c + 5)
            + flat_aggregates(s, c + 6) + flat_aggregates(s, c + 7)
    } else {
        Seq::empty()
    }
}

/// A vanishing aggregate mass contributes no force at all.
proof fn lemma_pair_force_zero_mass(q: IVec3, mq: int, sx: int, sy: int, sz: int, k: int)
    requires
        0 <= mq,
        0 <= k,
    ensures
        pair_force(q, mq, sx, sy, sz, 0, k) == (0int, 0int, 0int),
{
    lemma_pair_force_bound(q, mq, sx, sy, sz, 0, k);
    assert(k * mq * 0 == 0) by (nonlinear_arith);
}

/// At theta zero the flat descent reaches every occupied leaf and sums the
/// plain pairwise law.
#[verifier::rlimit(100)]
proof fn lemma_flat_theta_zero(s: Seq<FlatNode>, i: int, q: IVec3, mq: int, k: int, td: int)
    requires
        forall|t: int| 1 <= t < s.len() ==> #[trigger] node_ok(s, t),
        1 <= i < s.len(),
        1 <= td,
        0 <= mq,
        0 <= k,
    ensures
        node_force(s, i, q, mq, k, 0, td) == pairwise_force(flat_aggregates(s, i), q, mq, k),
    decreases s.len() - i,
{
    assert(node_ok(s, i));
    assert(!is_far(s[i].bounds(), q, 0, td)) by {
        assert(2 * (s[i].half as int) * td >= 2) by (nonlinear_arith)
            requires
                s[i].half >= 1,
                td >= 1,
        ;
        let a = 2 * (s[i].half as int) * td;
        assert(a * a > 0) by (nonlinear_arith)
            requires
                a >= 2,
        ;
        assert(0 * 0 * crate::vec3::dist_sq(s[i].bounds().center, q) == 0) by (nonlinear_arith);
    };
    if s[i].is_leaf() {
        if s[i].mass > 0 {
            let agg = flat_aggregates(s, i);
            assert(agg.drop_first() =~= Seq::<PointMass>::empty());
            assert(pairwise_force(agg.drop_first(), q, mq, k) == (0int, 0int, 0int));
        } else {
            lemma_pair_force_zero_mass(q, mq, s[i].com.x as int, s[i].com.y as int,
                s[i].com.z as int, k);
        }
    } else {
        let c = s[i].children as int;
        lemma_flat_theta_zero(s, c, q, mq, k, td);
        lemma_flat_theta_zero(s, c + 1, q, mq, k, td);
        lemma_flat_theta_zero(s, c + 2, q, mq, k, td);
        lemma_flat_theta_zero(s, c + 3, q, mq, k, td);
        lemma_flat_theta_zero(s, c + 4, q, mq, k, td);
        lemma_flat_theta_zero(s, c + 5, q, mq, k, td);
        lemma_flat_theta_zero(s, c + 6, q, mq, k, td);
        lemma_flat_theta_zero(s, c + 7, q, mq, k, td);
        let a0 = flat_aggregates(s, c);
        let a1 = flat_aggregates(s, c + 1);
        let a2 = flat_aggregates(s, c + 2);
        let a3 = flat_aggregates(s, c + 3);
        let a4 = flat_aggregates(s, c + 4);
        let a5 = flat_aggregates(s, c + 5);
        let a6 = flat_aggregates(s, c + 6);
        let a7 = flat_aggregates(s, c + 7);
        lemma_pairwise_concat(a0, a1, q, mq, k);
        lemma_pairwise_concat(a0 + a1, a2, q, mq, k);
        lemma_pairwise_concat(a0 + a1 + a2, a3, q, mq, k);
        lemma_pairwise_concat(a0 + a1 + a2 + a3, a4, q, mq, k);
        lemma_pairwise_concat(a0 + a1 + a2 + a3 + a4, a5, q, mq, k);
        lemma_pairwise_concat(a0 + a1 + a2 + a3 + a4 + a5, a6, q, mq, k);
        lemma_pairwise_concat(a0 + a1 + a2 + a3 + a4 + a5 + a6, a7, q, mq, k);
    }
}

/// Raising theta never increases the slots a flat query visits.
proof fn lemma_flat_visits_monotone(s: Seq<FlatNode>, i: int, q: IVec3, tn1: int, td1: int,
    tn2: int, td2: int)
    requires
        forall|t: int| 1 <= t < s.len() ==> #[trigger] node_ok(s, t),
        1 <= i < s.len(),
        0 <= tn1,
        1 <= td1,
        0 <= tn2,
        1 <= td2,
        tn1 * td2 <= tn2 * td1,
    ensures
        flat_visits(s, i, q, tn2, td2) <= flat_visits(s, i, q, tn1, td1),
    decreases s.len() - i,
{
    assert(node_ok(s, i));
    if s[i].is_leaf() {
    } else if is_far(s[i].bounds(), q, tn2, td2) {
        lemma_flat_visits_cap(s, i, q, tn1, td1);
    } else {
        if is_far(s[i].bounds(), q, tn1, td1) {
            lemma_far_monotone(s[i].bounds(), q, tn1, td1, tn2, td2);
            assert(false);
        }
        if i < s[i].children && s[i].children + 8 <= s.len() {
            let c = s[i].children as int;
            lemma_flat_visits_monotone(s, c, q, tn1, td1, tn2, td2);
            lemma_flat_visits_monotone(s, c + 1, q, tn1, td1, tn2, td2);
            lemma_flat_visits_monotone(s, c + 2, q, tn1, td1, tn2, td2);
            lemma_flat_visits_monotone(s, c + 3, q, tn1, td1, tn2, td2);
            lemma_flat_visits_monotone(s, c + 4, q, tn1, td1, tn2, td2);
            lemma_flat_visits_monotone(s, c + 5, q, tn1, td1, tn2, td2);
            lemma_flat_visits_monotone(s, c + 6, q, tn1, td1, tn2, td2);
            lemma_flat_visits_monotone(s, c + 7, q, tn1, td1, tn2, td2);
        }
    }
}

/// Force contributed by the subtree rooted at slot `i`, by the theta
/// descent over the stored aggregates.
spec fn node_force(s: Seq<FlatNode>, i: int, q: IVec3, mq: int, k: int, tn: int, td: int) -> (
    int,
    int,
    int,
)
    decreases s.len() - i,
{
    if !(1 <= i < s.len()) {
        (0, 0, 0)
    } else if s[i].is_leaf() || is_far(s[i].bounds(), q, tn, td) {
        pair_force(q, mq, s[i].com.x as int, s[i].com.y as int, s[i].com.z as int,
            s[i].mass as int, k)
    } else if i < s[i].children && s[i].children + 8 <= s.len() {
        let c = s[i].children as int;
        let f0 = node_force(s, c, q, mq, k, tn, td);
        let f1 = node_force(s, c + 1, q, mq, k, tn, td);
        let f2 = node_force(s, c + 2, q, mq, k, tn, td);
        let f3 = node_force(s, c + 3, q, mq, k, tn, td);
        let f4 = node_force(s, c + 4, q, mq, k, tn, td);
        let f5 = node_force(s, c + 5, q, mq, k, tn, td);
        let f6 = node_force(s, c + 6, q, mq, k, tn, td);
        let f7 = node_force(s, c + 7, q, mq, k, tn, td);
        (
            f0.0 + f1.0 + f2.0 + f3.0 + f4.0 + f5.0 + f6.0 + f7.0,
            f0.1 + f1.1 + f2.1 + f3.1 + f4.1 + f5.1 + f6.1 + f7.1,
            f0.2 + f1.2 + f2.2 + f3.2 + f4.2 + f5.2 + f6.2 + f7.2,
        )
    } else {
        (0, 0, 0)
    }
}

/// Number of slots a force query on the subtree at `i` visits.
spec fn flat_visits(s: Seq<FlatNode>, i: int, q: IVec3, tn: int, td: int) -> int
    decreases s.len() - i,
{
    if !(1 <= i < s.len()) {
        0
    } else if s[i].is_leaf() || is_far(s[i].bounds(), q, tn, td) {
        1
    } else if i < s[i].children && s[i].children + 8 <= s.len() {
        let c = s[i].children as int;
        1 + flat_visits(s, c, q, tn, td) + flat_visits(s, c + 1, q, tn, td) + flat_visits(s, c
            + 2, q, tn, td) + flat_visits(s, c + 3, q, tn, td) + flat_visits(s, c + 4, q, tn,
            td) + flat_visits(s, c + 5, q, tn, td) + flat_visits(s, c + 6, q, tn, td)
            + flat_visits(s, c + 7, q, tn, td)
    } else {
        1
    }
}

/// The eight consecutive indices of a child block.
spec fn block_seq(c: int) -> Seq<int> {
    seq![c, c + 1, c + 2, c + 3, c + 4, c + 5, c + 6, c + 7]
}

/// One pending-stack entry is a valid slot.
spec fn stack_elem_ok(s: Seq<FlatNode>, st: Seq<int>, t: int) -> bool {
    0 <= t < st.len() ==> 1 <= st[t] < s.len()
}

/// The ghost continuation stack mirrors the `next` chain: each entry's
/// skip link is the entry after it, and the last entry's link is the end
/// marker.
spec fn stack_wf(s: Seq<FlatNode>, st: Seq<int>) -> bool {
    &&& forall|t: int| 0 <= t < st.len() ==> #[trigger] stack_elem_ok(s, st, t)
    &&& forall|t: int|
        0 <= t < st.len() - 1 ==> (#[trigger] s[st[t]].next) as int == st[t + 1]
    &&& (st.len() > 0 ==> s[st[st.len() - 1]].next == 0)
}

/// Combined force of all subtrees still pending on the stack.
spec fn stack_force(s: Seq<FlatNode>, st: Seq<int>, q: IVec3, mq: int, k: int, tn: int, td: int)
    -> (int, int, int)
    decreases st.len(),
{
    if st.len() == 0 {
        (0, 0, 0)
    } else {
        let f = node_force(s, st[0], q, mq, k, tn, td);
        let rest = stack_force(s, st.drop_first(), q, mq, k, tn, td);
        (f.0 + rest.0, f.1 + rest.1, f.2 + rest.2)
    }
}

/// Termination measure: the worst-case slot count of every pending
/// subtree, by its depth budget.
spec fn stack_measure(s: Seq<FlatNode>, st: Seq<int>) -> int
    decreases st.len(),
{
    if st.len() == 0 {
        0
    } else {
        (if 0 <= st[0] < s.len() {
            crate::barnes_hut::size_cap((MAX_DEPTH - s[st[0]].level) as nat)
        } else {
            1
        }) + stack_measure(s, st.drop_first())
    }
}

proof fn lemma_stack_measure_nonneg(s: Seq<FlatNode>, st: Seq<int>)
    ensures
        stack_measure(s, st) >= 0,
    decreases st.len(),
{
    if st.len() > 0 {
        lemma_stack_measure_nonneg(s, st.drop_first());
        if 0 <= st[0] < s.len() {
            crate::barnes_hut::lemma_size_cap_pos((MAX_DEPTH - s[st[0]].level) as nat);
        }
    }
}

proof fn lemma_stack_measure_pos(s: Seq<FlatNode>, st: Seq<int>)
    requires
        st.len() > 0,
    ensures
        stack_measure(s, st) >= 1,
{
    lemma_stack_measure_nonneg(s, st.drop_first());
    if 0 <= st[0] < s.len() {
        crate::barnes_hut::lemma_size_cap_pos((MAX_DEPTH - s[st[0]].level) as nat);
    }
}

/// Dropping the head keeps the chain well-formed.
proof fn lemma_stack_wf_drop(s: Seq<FlatNode>, st: Seq<int>)
    requires
        stack_wf(s, st),
        st.len() >= 1,
    ensures
        stack_wf(s, st.drop_first()),
{
    let st2 = st.drop_first();
    assert forall|t: int| 0 <= t < st2.len() implies #[trigger] stack_elem_ok(s, st2, t) by {
        assert(stack_elem_ok(s, st, t + 1));
    };
    assert forall|t: int|
        0 <= t < st2.len() - 1 implies (#[trigger] s[st2[t]].next) as int == st2[t + 1] by {
        assert(s[st[t + 1]].next as int == st[t + 2]);
    };
}

/// Replacing the head by its eight children keeps the chain well-formed.
proof fn lemma_stack_wf_push_block(s: Seq<FlatNode>, i: int, rest: Seq<int>)
    requires
        1 <= i < s.len(),
        node_ok(s, i),
        !s[i].is_leaf(),
        forall|t: int| 0 <= t < rest.len() ==> #[trigger] stack_elem_ok(s, rest, t),
        forall|t: int| 0 <= t < rest.len() - 1 ==> (#[trigger] s[rest[t]].next) as int == rest[t
            + 1],
        rest.len() > 0 ==> s[rest[rest.len() - 1]].next == 0,
        rest.len() > 0 ==> s[i].next as int == rest[0],
        rest.len() == 0 ==> s[i].next == 0,
    ensures
        stack_wf(s, block_seq(s[i].children as int) + rest),
{
    let c = s[i].children as int;
    let st = block_seq(c) + rest;
    assert(child_ok(s, i, 0) && child_ok(s, i, 1) && child_ok(s, i, 2) && child_ok(s, i, 3)
        && child_ok(s, i, 4) && child_ok(s, i, 5) && child_ok(s, i, 6) && child_ok(s, i, 7));
    assert forall|t: int| 0 <= t < st.len() implies #[trigger] stack_elem_ok(s, st, t) by {
        if t < 8 {
            assert(child_ok(s, i, t));
        } else {
            assert(stack_elem_ok(s, rest, t - 8));
        }
    };
    assert forall|t: int|
        0 <= t < st.len() - 1 implies (#[trigger] s[st[t]].next) as int == st[t + 1] by {
        if t < 7 {
            assert(child_ok(s, i, t));
        } else if t == 7 {
            assert(child_ok(s, i, 7));
        } else {
            assert(s[rest[t - 8]].next as int == rest[t - 7]);
        }
    };
    if st.len() > 0 {
        if rest.len() > 0 {
            assert(st[st.len() - 1] == rest[rest.len() - 1]);
        } else {
            assert(st[st.len() - 1] == c + 7);
            assert(child_ok(s, i, 7));
        }
    }
}

/// The pending force of a pushed child block is the block's eight subtree
/// forces plus the remainder.
proof fn lemma_stack_force_block(s: Seq<FlatNode>, c: int, rest: Seq<int>, q: IVec3, mq: int,
    k: int, tn: int, td: int)
    ensures
        stack_force(s, block_seq(c) + rest, q, mq, k, tn, td).0 == node_force(s, c, q, mq, k,
            tn, td).0 + node_force(s, c + 1, q, mq, k, tn, td).0 + node_force(s, c + 2, q, mq,
            k, tn, td).0 + node_force(s, c + 3, q, mq, k, tn, td).0 + node_force(s, c + 4, q,
            mq, k, tn, td).0 + node_force(s, c + 5, q, mq, k, tn, td).0 + node_force(s, c + 6,
            q, mq, k, tn, td).0 + node_force(s, c + 7, q, mq, k, tn, td).0 + stack_force(s,
            rest, q, mq, k, tn, td).0,
        stack_force(s, block_seq(c) + rest, q, mq, k, tn, td).1 == node_force(s, c, q, mq, k,
            tn, td).1 + node_force(s, c + 1, q, mq, k, tn, td).1 + node_force(s, c + 2, q, mq,
            k, tn, td).1 + node_force(s, c + 3, q, mq, k, tn, td).1 + node_force(s, c + 4, q,
            mq, k, tn, td).1 + node_force(s, c + 5, q, mq, k, tn, td).1 + node_force(s, c + 6,
            q, mq, k, tn, td).1 + node_force(s, c + 7, q, mq, k, tn, td).1 + stack_force(s,
            rest, q, mq, k, tn, td).1,
        stack_force(s, block_seq(c) + rest, q, mq, k, tn, td).2 == node_force(s, c, q, mq, k,
            tn, td).2 + node_force(s, c + 1, q, mq, k, tn, td).2 + node_force(s, c + 2, q, mq,
            k, tn, td).2 + node_force(s, c + 3, q, mq, k, tn, td).2 + node_force(s, c + 4, q,
            mq, k, tn, td).2 + node_force(s, c + 5, q, mq, k, tn, td).2 + node_force(s, c + 6,
            q, mq, k, tn, td).2 + node_force(s, c + 7, q, mq, k, tn, td).2 + stack_force(s,
            rest, q, mq, k, tn, td).2,
{
    reveal_with_fuel(stack_force, 10);
    let s7 = seq![c + 7] + rest;
    let s6 = seq![c + 6] + s7;
    let s5 = seq![c + 5] + s6;
    let s4 = seq![c + 4] + s5;
    let s3 = seq![c + 3] + s4;
    let s2 = seq![c + 2] + s3;
    let s1 = seq![c + 1] + s2;
    let s_full = seq![c] + s1;
    assert(s7.drop_first() =~= rest);
    assert(s6.drop_first() =~= s7);
    assert(s5.drop_first() =~= s6);
    assert(s4.drop_first() =~= s5);
    assert(s3.drop_first() =~= s4);
    assert(s2.drop_first() =~= s3);
    assert(s1.drop_first() =~= s2);
    assert(s_full.drop_first() =~= s1);
    assert(block_seq(c) + rest =~= s_full);
}

/// The same decomposition for the termination measure.
proof fn lemma_stack_measure_block(s: Seq<FlatNode>, c: int, rest: Seq<int>)
    ensures
        stack_measure(s, block_seq(c) + rest) == (if 0 <= c < s.len() {
            crate::barnes_hut::size_cap((MAX_DEPTH - s[c].level) as nat)
        } else {
            1
        }) + (if 0 <= c + 1 < s.len() {
            crate::barnes_hut::size_cap((MAX_DEPTH - s[c + 1].level) as nat)
        } else {
            1
        }) + (if 0 <= c + 2 < s.len() {
            crate::barnes_hut::size_cap((MAX_DEPTH - s[c + 2].level) as nat)
        } else {
            1
        }) + (if 0 <= c + 3 < s.len() {
            crate::barnes_hut::size_cap((MAX_DEPTH - s[c + 3].level) as nat)
        } else {
            1
        }) + (if 0 <= c + 4 < s.len() {
            crate::barnes_hut::size_cap((MAX_DEPTH - s[c + 4].level) as nat)
        } else {
            1
        }) + (if 0 <= c + 5 < s.len() {
            crate::barnes_hut::size_cap((MAX_DEPTH - s[c + 5].level) as nat)
        } else {
            1
        }) + (if 0 <= c + 6 < s.len() {
            crate::barnes_hut::size_cap((MAX_DEPTH - s[c + 6].level) as nat)
        } else {
            1
        }) + (if 0 <= c + 7 < s.len() {
            crate::barnes_hut::size_cap((MAX_DEPTH - s[c + 7].level) as nat)
        } else {
            1
        }) + stack_measure(s, rest),
{
    reveal_with_fuel(stack_measure, 10);
    let s7 = seq![c + 7] + rest;
    let s6 = seq![c + 6] + s7;
    let s5 = seq![c + 5] + s6;
    let s4 = seq![c + 4] + s5;
    let s3 = seq![c + 3] + s4;
    let s2 = seq![c + 2] + s3;
    let s1 = seq![c + 1] + s2;
    let s_full = seq![c] + s1;
    assert(s7.drop_first() =~= rest);
    assert(s6.drop_first() =~= s7);
    assert(s5.drop_first() =~= s6);
    assert(s4.drop_first() =~= s5);
    assert(s3.drop_first() =~= s4);
    assert(s2.drop_first() =~= s3);
    assert(s1.drop_first() =~= s2);
    assert(s_full.drop_first() =~= s1);
    assert(block_seq(c) + rest =~= s_full);
}

/// A pushed block of children of one interior node, all one level deeper,
/// measures one less than the node itself.
proof fn lemma_block_measure_value(s: Seq<FlatNode>, c: int, parent_level: int)
    requires
        2 <= c,
        c + 8 <= s.len(),
        0 <= parent_level < MAX_DEPTH,
        forall|j: int| 0 <= j < 8 ==> #[trigger] s[c + j].level == parent_level + 1,
    ensures
        (crate::barnes_hut::size_cap((MAX_DEPTH - (parent_level + 1)) as nat)) * 8 + 1
            == crate::barnes_hut::size_cap((MAX_DEPTH - parent_level) as nat),
{
    let d = (MAX_DEPTH - parent_level) as nat;
    assert(d >= 1);
    assert(crate::barnes_hut::size_cap(d) == 1 + 8 * crate::barnes_hut::size_cap((d - 1) as nat));
    assert((MAX_DEPTH - (parent_level + 1)) as nat == (d - 1) as nat);
}

/// Facts about the array as it stood when the sweep began.
spec fn base_ok(s0: Seq<FlatNode>, total: int) -> bool {
    &&& 2 <= s0.len()
    &&& forall|t: int| 1 <= t < s0.len() ==> #[trigger] node_ok(s0, t)
    &&& forall|t: int| 2 <= t < s0.len() ==> #[trigger] parent_ok(s0, t)
    &&& total == leaf_mass_upto(s0, s0.len() as int)
    &&& 0 <= total <= TOTAL_MASS_LIMIT
}

/// Sweep progress: shapes are intact, leaves untouched, and every slot from
/// `i` on is final.
spec fn sweep_ok(tree: Octree, s0: Seq<FlatNode>, i: int) -> bool {
    &&& tree.shape_ok()
    &&& tree.nodes@.len() == s0.len()
    &&& forall|t: int| 0 <= t < s0.len() ==> #[trigger] same_shape_at(tree.nodes@, s0, t)
    &&& forall|t: int| i <= t < s0.len() ==> #[trigger] processed_at(tree.nodes@, s0, t)
}

/// Geometry, links, ghost parents and leaf payloads are untouched by the
/// sweep.
spec fn same_shape_at(s: Seq<FlatNode>, s0: Seq<FlatNode>, t: int) -> bool {
    0 <= t < s.len() && s.len() == s0.len() && {
        &&& s[t].center == s0[t].center
        &&& s[t].half == s0[t].half
        &&& s[t].level == s0[t].level
        &&& s[t].children == s0[t].children
        &&& s[t].next == s0[t].next
        &&& s[t].parent == s0[t].parent
        &&& (s0[t].is_leaf() ==> s[t] == s0[t])
    }
}

/// An interior slot whose aggregate has been recomputed by the sweep.
spec fn processed_at(s: Seq<FlatNode>, s0: Seq<FlatNode>, t: int) -> bool {
    0 <= t < s.len() && s.len() == s0.len() && (!s0[t].is_leaf() ==> {
        &&& s[t].mass as int == reach_mass_upto(s0, t, s0.len() as int)
        &&& 0 <= s[t].mass as int <= leaf_mass_upto(s0, s0.len() as int)
        &&& s[t].mass as int == block_mass(s, s[t].children as int)
        &&& (s[t].mass > 0 ==> s[t].bounds().covers(s[t].com))
        &&& (s[t].mass == 0 ==> s[t].com == (IVec3 { x: 0, y: 0, z: 0 }))
    })
}

/// A child slot is final: its mass is the mass genuinely under it, within
/// the global total, and its center of mass lies in its cube (or is zero).
spec fn child_settled(s: Seq<FlatNode>, s0: Seq<FlatNode>, t: int) -> bool {
    0 <= t < s.len() && s.len() == s0.len() && {
        &&& s[t].mass as int == reach_mass_upto(s0, t, s0.len() as int)
        &&& 0 <= s[t].mass as int <= leaf_mass_upto(s0, s0.len() as int)
        &&& (s[t].mass > 0 ==> s[t].bounds().covers(s[t].com))
        &&& (s[t].mass == 0 ==> s[t].com == (IVec3 { x: 0, y: 0, z: 0 }))
    }
}

/// One child slot is settled: a leaf by being untouched, an interior slot
/// by having been processed.
proof fn lemma_one_child_settled(s: Seq<FlatNode>, s0: Seq<FlatNode>, t: int)
    requires
        forall|u: int| 2 <= u < s0.len() ==> #[trigger] parent_ok(s0, u),
        forall|u: int| 1 <= u < s0.len() ==> (#[trigger] s0[u]).mass >= 0,
        1 <= t < s.len(),
        same_shape_at(s, s0, t),
        node_ok(s, t),
        !s0[t].is_leaf() ==> processed_at(s, s0, t),
    ensures
        child_settled(s, s0, t),
{
    if s0[t].is_leaf() {
        lemma_rmu_leaf(s0, t, s0.len() as int);
        lemma_leaf_le_lmu(s0, t, s0.len() as int);
    }
}

/// The weighted sum of settled children's centers of mass stays inside the
/// parent cube scaled by the mass sum.
proof fn lemma_children_weighted_box(s: Seq<FlatNode>, s0: Seq<FlatNode>, i: int, c: int)
    requires
        forall|t: int| 1 <= t < s.len() ==> #[trigger] node_ok(s, t),
        1 <= i < s.len(),
        !s[i].is_leaf(),
        c == s[i].children as int,
        child_settled(s, s0, c) && child_settled(s, s0, c + 1) && child_settled(s, s0, c + 2)
            && child_settled(s, s0, c + 3) && child_settled(s, s0, c + 4) && child_settled(s,
            s0, c + 5) && child_settled(s, s0, c + 6) && child_settled(s, s0, c + 7),
    ensures
        weighted_in_cube(s, i, c),
{
    assert(node_ok(s, i));
    let b = s[i].bounds();
    lemma_octant_divisibility(b, 0, s[i].level);
    lemma_distribute8(s[c].mass as int, s[c + 1].mass as int, s[c + 2].mass as int, s[c
        + 3].mass as int, s[c + 4].mass as int, s[c + 5].mass as int, s[c + 6].mass as int, s[c
        + 7].mass as int, b.center.x - b.half);
    lemma_distribute8(s[c].mass as int, s[c + 1].mass as int, s[c + 2].mass as int, s[c
        + 3].mass as int, s[c + 4].mass as int, s[c + 5].mass as int, s[c + 6].mass as int, s[c
        + 7].mass as int, b.center.x + b.half);
    lemma_distribute8(s[c].mass as int, s[c + 1].mass as int, s[c + 2].mass as int, s[c
        + 3].mass as int, s[c + 4].mass as int, s[c + 5].mass as int, s[c + 6].mass as int, s[c
        + 7].mass as int, b.center.y - b.half);
    lemma_distribute8(s[c].mass as int, s[c + 1].mass as int, s[c + 2].mass as int, s[c
        + 3].mass as int, s[c + 4].mass as int, s[c + 5].mass as int, s[c + 6].mass as int, s[c
        + 7].mass as int, b.center.y + b.half);
    lemma_distribute8(s[c].mass as int, s[c + 1].mass as int, s[c + 2].mass as int, s[c
        + 3].mass as int, s[c + 4].mass as int, s[c + 5].mass as int, s[c + 6].mass as int, s[c
        + 7].mass as int, b.center.z - b.half);
    lemma_distribute8(s[c].mass as int, s[c + 1].mass as int, s[c + 2].mass as int, s[c
        + 3].mass as int, s[c + 4].mass as int, s[c + 5].mass as int, s[c + 6].mass as int, s[c
        + 7].mass as int, b.center.z + b.half);
    assert(child_ok(s, i, 0));
    assert(node_ok(s, c));
    if s[c].mass > 0 {
        lemma_octant_within(b, 0, s[c].com);
    }
    lemma_box_weight(s[c].mass as int, s[c].com.x as int, b.center.x - b.half,
        b.center.x + b.half, s[c].mass == 0);
    lemma_box_weight(s[c].mass as int, s[c].com.y as int, b.center.y - b.half,
        b.center.y + b.half, s[c].mass == 0);
    lemma_box_weight(s[c].mass as int, s[c].com.z as int, b.center.z - b.half,
        b.center.z + b.half, s[c].mass == 0);
    assert(com_in_parent(s, i, c));
    assert(child_ok(s, i, 1));
    assert(node_ok(s, c + 1));
    if s[c + 1].mass > 0 {
        lemma_octant_within(b, 1, s[c + 1].com);
    }
    lemma_box_weight(s[c + 1].mass as int, s[c + 1].com.x as int, b.center.x - b.half,
        b.center.x + b.half, s[c + 1].mass == 0);
    lemma_box_weight(s[c + 1].mass as int, s[c + 1].com.y as int, b.center.y - b.half,
        b.center.y + b.half, s[c + 1].mass == 0);
    lemma_box_weight(s[c + 1].mass as int, s[c + 1].com.z as int, b.center.z - b.half,
        b.center.z + b.half, s[c + 1].mass == 0);
    assert(com_in_parent(s, i, c + 1));
    assert(child_ok(s, i, 2));
    assert(node_ok(s, c + 2));
    if s[c + 2].mass > 0 {
        lemma_octant_within(b, 2, s[c + 2].com);
    }
    lemma_box_weight(s[c + 2].mass as int, s[c + 2].com.x as int, b.center.x - b.half,
        b.center.x + b.half, s[c + 2].mass == 0);
    lemma_box_weight(s[c + 2].mass as int, s[c + 2].com.y as int, b.center.y - b.half,
        b.center.y + b.half, s[c + 2].mass == 0);
    lemma_box_weight(s[c + 2].mass as int, s[c + 2].com.z as int, b.center.z - b.half,
        b.center.z + b.half, s[c + 2].mass == 0);
    assert(com_in_parent(s, i, c + 2));
    assert(child_ok(s, i, 3));
    assert(node_ok(s, c + 3));
    if s[c + 3].mass > 0 {
        lemma_octant_within(b, 3, s[c + 3].com);
    }
    lemma_box_weight(s[c + 3].mass as int, s[c + 3].com.x as int, b.center.x - b.half,
        b.center.x + b.half, s[c + 3].mass == 0);
    lemma_box_weight(s[c + 3].mass as int, s[c + 3].com.y as int, b.center.y - b.half,
        b.center.y + b.half, s[c + 3].mass == 0);
    lemma_box_weight(s[c + 3].mass as int, s[c + 3].com.z as int, b.center.z - b.half,
        b.center.z + b.half, s[c + 3].mass == 0);
    assert(com_in_parent(s, i, c + 3));
    assert(child_ok(s, i, 4));
    assert(node_ok(s, c + 4));
    if s[c + 4].mass > 0 {
        lemma_octant_within(b, 4, s[c + 4].com);
    }
    lemma_box_weight(s[c + 4].mass as int, s[c + 4].com.x as int, b.center.x - b.half,
        b.center.x + b.half, s[c + 4].mass == 0);
    lemma_box_weight(s[c + 4].mass as int, s[c + 4].com.y as int, b.center.y - b.half,
        b.center.y + b.half, s[c + 4].mass == 0);
    lemma_box_weight(s[c + 4].mass as int, s[c + 4].com.z as int, b.center.z - b.half,
        b.center.z + b.half, s[c + 4].mass == 0);
    assert(com_in_parent(s, i, c + 4));
    assert(child_ok(s, i, 5));
    assert(node_ok(s, c + 5));
    if s[c + 5].mass > 0 {
        lemma_octant_within(b, 5, s[c + 5].com);
    }
    lemma_box_weight(s[c + 5].mass as int, s[c + 5].com.x as int, b.center.x - b.half,
        b.center.x + b.half, s[c + 5].mass == 0);
    lemma_box_weight(s[c + 5].mass as int, s[c + 5].com.y as int, b.center.y - b.half,
        b.center.y + b.half, s[c + 5].mass == 0);
    lemma_box_weight(s[c + 5].mass as int, s[c + 5].com.z as int, b.center.z - b.half,
        b.center.z + b.half, s[c + 5].mass == 0);
    assert(com_in_parent(s, i, c + 5));
    assert(child_ok(s, i, 6));
    assert(node_ok(s, c + 6));
    if s[c + 6].mass > 0 {
        lemma_octant_within(b, 6, s[c + 6].com);
    }
    lemma_box_weight(s[c + 6].mass as int, s[c + 6].com.x as int, b.center.x - b.half,
        b.center.x + b.half, s[c + 6].mass == 0);
    lemma_box_weight(s[c + 6].mass as int, s[c + 6].com.y as int, b.center.y - b.half,
        b.center.y + b.half, s[c + 6].mass == 0);
    lemma_box_weight(s[c + 6].mass as int, s[c + 6].com.z as int, b.center.z - b.half,
        b.center.z + b.half, s[c + 6].mass == 0);
    assert(com_in_parent(s, i, c + 6));
    assert(child_ok(s, i, 7));
    assert(node_ok(s, c + 7));
    if s[c + 7].mass > 0 {
        lemma_octant_within(b, 7, s[c + 7].com);
    }
    lemma_box_weight(s[c + 7].mass as int, s[c + 7].com.x as int, b.center.x - b.half,
        b.center.x + b.half, s[c + 7].mass == 0);
    lemma_box_weight(s[c + 7].mass as int, s[c + 7].com.y as int, b.center.y - b.half,
        b.center.y + b.half, s[c + 7].mass == 0);
    lemma_box_weight(s[c + 7].mass as int, s[c + 7].com.z as int, b.center.z - b.half,
        b.center.z + b.half, s[c + 7].mass == 0);
    assert(com_in_parent(s, i, c + 7));
}

/// One child's weighted center-of-mass terms lie in the parent cube scaled
/// by the child's mass.
spec fn com_in_parent(s: Seq<FlatNode>, i: int, t: int) -> bool {
    0 <= i < s.len() && 0 <= t < s.len() && {
        let b = s[i].bounds();
        let m = s[t].mass as int;
        &&& m * (b.center.x - b.half) <= m * s[t].com.x <= m * (b.center.x + b.half)
        &&& m * (b.center.y - b.half) <= m * s[t].com.y <= m * (b.center.y + b.half)
        &&& m * (b.center.z - b.half) <= m * s[t].com.z <= m * (b.center.z + b.half)
    }
}

/// The whole block's weighted sum lies in the parent cube scaled by the
/// block mass.
spec fn weighted_in_cube(s: Seq<FlatNode>, i: int, c: int) -> bool {
    0 <= i < s.len() && 0 <= c && c + 8 <= s.len() && {
        let b = s[i].bounds();
        let m = block_mass(s, c);
        let wx = s[c].mass * s[c].com.x + s[c + 1].mass * s[c + 1].com.x + s[c + 2].mass * s[c
            + 2].com.x + s[c + 3].mass * s[c + 3].com.x + s[c + 4].mass * s[c + 4].com.x + s[c
            + 5].mass * s[c + 5].com.x + s[c + 6].mass * s[c + 6].com.x + s[c + 7].mass * s[c
            + 7].com.x;
        let wy = s[c].mass * s[c].com.y + s[c + 1].mass * s[c + 1].com.y + s[c + 2].mass * s[c
            + 2].com.y + s[c + 3].mass * s[c + 3].com.y + s[c + 4].mass * s[c + 4].com.y + s[c
            + 5].mass * s[c + 5].com.y + s[c + 6].mass * s[c + 6].com.y + s[c + 7].mass * s[c
            + 7].com.y;
        let wz = s[c].mass * s[c].com.z + s[c + 1].mass * s[c + 1].com.z + s[c + 2].mass * s[c
            + 2].com.z + s[c + 3].mass * s[c + 3].com.z + s[c + 4].mass * s[c + 4].com.z + s[c
            + 5].mass * s[c + 5].com.z + s[c + 6].mass * s[c + 6].com.z + s[c + 7].mass * s[c
            + 7].com.z;
        &&& m * (b.center.x - b.half) <= wx <= m * (b.center.x + b.half)
        &&& m * (b.center.y - b.half) <= wy <= m * (b.center.y + b.half)
        &&& m * (b.center.z - b.half) <= wz <= m * (b.center.z + b.half)
    }
}

/// Bounded weighted terms: a limited mass times limited coordinates stays
/// far inside the 128-bit range.
proof fn lemma_child_products(m: int, cx: int, cy: int, cz: int)
    requires
        0 <= m <= TOTAL_MASS_LIMIT,
        -COORD_LIMIT <= cx <= COORD_LIMIT,
        -COORD_LIMIT <= cy <= COORD_LIMIT,
        -COORD_LIMIT <= cz <= COORD_LIMIT,
    ensures
        -10_000_000_000_000_000 <= m * cx <= 10_000_000_000_000_000,
        -10_000_000_000_000_000 <= m * cy <= 10_000_000_000_000_000,
        -10_000_000_000_000_000 <= m * cz <= 10_000_000_000_000_000,
{
    assert(-10_000_000_000_000_000 <= m * cx <= 10_000_000_000_000_000) by (nonlinear_arith)
        requires
            0 <= m <= 10_000_000,
            -1_000_000_000 <= cx <= 1_000_000_000,
    ;
    assert(-10_000_000_000_000_000 <= m * cy <= 10_000_000_000_000_000) by (nonlinear_arith)
        requires
            0 <= m <= 10_000_000,
            -1_000_000_000 <= cy <= 1_000_000_000,
    ;
    assert(-10_000_000_000_000_000 <= m * cz <= 10_000_000_000_000_000) by (nonlinear_arith)
        requires
            0 <= m <= 10_000_000,
            -1_000_000_000 <= cz <= 1_000_000_000,
    ;
}

/// Multiplication distributes over an eight-term sum.
proof fn lemma_distribute8(m0: int, m1: int, m2: int, m3: int, m4: int, m5: int, m6: int,
    m7: int, f: int)
    ensures
        (m0 + m1 + m2 + m3 + m4 + m5 + m6 + m7) * f == m0 * f + m1 * f + m2 * f + m3 * f + m4
            * f + m5 * f + m6 * f + m7 * f,
{
    assert((m0 + m1 + m2 + m3 + m4 + m5 + m6 + m7) * f == m0 * f + m1 * f + m2 * f + m3 * f
        + m4 * f + m5 * f + m6 * f + m7 * f) by (nonlinear_arith);
}

/// `m*lo <= m*x <= m*hi`, also when the term vanishes because `m == 0`.
proof fn lemma_box_weight(m: int, x: int, lo: int, hi: int, zero: bool)
    requires
        0 <= m,
        zero ==> x == 0,
        !zero ==> lo <= x <= hi,
        zero ==> m == 0,
    ensures
        m * lo <= m * x <= m * hi,
{
    if zero {
        assert(m * lo == 0 && m * x == 0 && m * hi == 0) by (nonlinear_arith)
            requires
                m == 0,
        ;
    } else {
        assert(m * lo <= m * x && m * x <= m * hi) by (nonlinear_arith)
            requires
                0 <= m,
                lo <= x <= hi,
        ;
    }
}

/// Arrays with the same leaves have the same leaf-mass sum.
proof fn lemma_lmu_same_leaves(s: Seq<FlatNode>, s0: Seq<FlatNode>, n: int)
    requires
        s.len() == s0.len(),
        n <= s.len(),
        forall|t: int| 0 <= t < s.len() ==> #[trigger] same_shape_at(s, s0, t),
    ensures
        leaf_mass_upto(s, n) == leaf_mass_upto(s0, n),
    decreases n,
{
    if n > 1 {
        lemma_lmu_same_leaves(s, s0, n - 1);
        assert(same_shape_at(s, s0, n - 1));
    }
}

/// A slot only reaches slots at or below its own index.
proof fn lemma_reaches_le(s: Seq<FlatNode>, i: int, k: int)
    requires
        reaches(s, i, k),
    ensures
        i <= k,
{
}

/// Two ancestors of one slot lie on one chain: the lower reaches the
/// higher... precisely, the smaller-indexed ancestor is reached by the
/// larger-indexed one.
proof fn lemma_reaches_chain(s: Seq<FlatNode>, a: int, b: int, k: int)
    requires
        reaches(s, a, k),
        reaches(s, b, k),
        a <= b,
    ensures
        reaches(s, a, b),
    decreases k,
{
    if k == b {
    } else if k == a {
        lemma_reaches_le(s, b, k);
    } else {
        let p = s[k].parent@;
        lemma_reaches_chain(s, a, b, p);
    }
}

/// Nothing but a leaf itself reaches a leaf.
proof fn lemma_leaf_reaches_none(s: Seq<FlatNode>, i: int, k: int)
    requires
        forall|t: int| 2 <= t < s.len() ==> #[trigger] parent_ok(s, t),
        0 <= i < s.len(),
        s[i].is_leaf(),
        k != i,
    ensures
        !reaches(s, i, k),
    decreases k,
{
    if reaches(s, i, k) {
        let p = s[k].parent@;
        assert(parent_ok(s, k));
        if p == i {
            assert(!s[p].is_leaf());
        } else {
            lemma_leaf_reaches_none(s, i, p);
        }
    }
}

/// A strict descendant of an interior node descends through exactly one of
/// its children.
proof fn lemma_reaches_via_child(s: Seq<FlatNode>, i: int, k: int)
    requires
        forall|t: int| 1 <= t < s.len() ==> #[trigger] node_ok(s, t),
        forall|t: int| 2 <= t < s.len() ==> #[trigger] parent_ok(s, t),
        1 <= i < s.len(),
        !s[i].is_leaf(),
        1 <= k < s.len(),
        k != i,
    ensures
        reaches(s, i, k) <==> exists|j: int|
            0 <= j < 8 && #[trigger] reaches(s, s[i].children + j, k),
    decreases k,
{
    assert(node_ok(s, i));
    let c = s[i].children as int;
    if reaches(s, i, k) {
        let p = s[k].parent@;
        assert(parent_ok(s, k));
        if p == i {
            let j = k - c;
            assert(reaches(s, c + j, k));
        } else {
            lemma_reaches_via_child(s, i, p);
            let j = choose|j: int| 0 <= j < 8 && #[trigger] reaches(s, c + j, p);
            lemma_reaches_le(s, c + j, p);
            assert(reaches(s, c + j, k));
        }
    }
    if exists|j: int| 0 <= j < 8 && #[trigger] reaches(s, c + j, k) {
        let j = choose|j: int| 0 <= j < 8 && #[trigger] reaches(s, c + j, k);
        assert(child_ok(s, i, j));
        assert(s[c + j].parent@ == i);
        lemma_reaches_from_child(s, i, j, k);
    }
}

/// Reaching a child means reaching the parent.
proof fn lemma_reaches_from_child(s: Seq<FlatNode>, i: int, j: int, k: int)
    requires
        forall|t: int| 1 <= t < s.len() ==> #[trigger] node_ok(s, t),
        forall|t: int| 2 <= t < s.len() ==> #[trigger] parent_ok(s, t),
        1 <= i < s.len(),
        !s[i].is_leaf(),
        0 <= j < 8,
        reaches(s, s[i].children + j, k),
    ensures
        reaches(s, i, k),
    decreases k,
{
    assert(node_ok(s, i));
    assert(child_ok(s, i, j));
    let c = s[i].children as int;
    if k == c + j {
        assert(s[k].parent@ == i);
        assert(reaches(s, i, i));
    } else {
        let p = s[k].parent@;
        lemma_reaches_from_child(s, i, j, p);
        lemma_reaches_le(s, c + j, k);
    }
}

/// No two distinct children share a descendant.
proof fn lemma_reaches_child_unique(s: Seq<FlatNode>, i: int, j1: int, j2: int, k: int)
    requires
        forall|t: int| 1 <= t < s.len() ==> #[trigger] node_ok(s, t),
        forall|t: int| 2 <= t < s.len() ==> #[trigger] parent_ok(s, t),
        1 <= i < s.len(),
        !s[i].is_leaf(),
        0 <= j1 < 8,
        0 <= j2 < 8,
        reaches(s, s[i].children + j1, k),
        reaches(s, s[i].children + j2, k),
    ensures
        j1 == j2,
{
    assert(node_ok(s, i));
    let c = s[i].children as int;
    if j1 != j2 {
        if j1 < j2 {
            lemma_reaches_chain(s, c + j1, c + j2, k);
            assert(child_ok(s, i, j2));
            assert(s[c + j2].parent@ == i);
            lemma_reaches_le(s, c + j1, i);
        } else {
            lemma_reaches_chain(s, c + j2, c + j1, k);
            assert(child_ok(s, i, j1));
            assert(s[c + j1].parent@ == i);
            lemma_reaches_le(s, c + j2, i);
        }
    }
}

/// Combined reach-mass of the eight children of block `c`.
spec fn block_rmu(s: Seq<FlatNode>, c: int, n: int) -> int {
    reach_mass_upto(s, c, n) + reach_mass_upto(s, c + 1, n) + reach_mass_upto(s, c + 2, n)
        + reach_mass_upto(s, c + 3, n) + reach_mass_upto(s, c + 4, n) + reach_mass_upto(s, c
        + 5, n) + reach_mass_upto(s, c + 6, n) + reach_mass_upto(s, c + 7, n)
}

/// The mass under a leaf is just its own stored mass.
proof fn lemma_rmu_leaf(s: Seq<FlatNode>, i: int, n: int)
    requires
        forall|t: int| 2 <= t < s.len() ==> #[trigger] parent_ok(s, t),
        0 <= i < s.len(),
        s[i].is_leaf(),
        n <= s.len(),
    ensures
        reach_mass_upto(s, i, n) == if 1 <= i < n {
            s[i].mass as int
        } else {
            0
        },
    decreases n,
{
    if n > 1 {
        lemma_rmu_leaf(s, i, n - 1);
        if n - 1 != i {
            lemma_leaf_reaches_none(s, i, n - 1);
        }
    }
}

/// The mass under an interior node splits exactly over its children.
proof fn lemma_rmu_split(s: Seq<FlatNode>, i: int, n: int)
    requires
        forall|t: int| 1 <= t < s.len() ==> #[trigger] node_ok(s, t),
        forall|t: int| 2 <= t < s.len() ==> #[trigger] parent_ok(s, t),
        1 <= i < s.len(),
        !s[i].is_leaf(),
        n <= s.len(),
    ensures
        reach_mass_upto(s, i, n) == block_rmu(s, s[i].children as int, n),
    decreases n,
{
    assert(node_ok(s, i));
    let c = s[i].children as int;
    if n <= 1 {
    } else {
        lemma_rmu_split(s, i, n - 1);
        let k = n - 1;
        assert(reach_mass_upto(s, c, n) == reach_mass_upto(s, c, n - 1) + (if 0 <= k
            < s.len() && s[k].is_leaf() && reaches(s, c, k) {
            s[k].mass as int
        } else {
            0
        }));
        assert(reach_mass_upto(s, c + 1, n) == reach_mass_upto(s, c + 1, n - 1) + (if 0 <= k
            < s.len() && s[k].is_leaf() && reaches(s, c + 1, k) {
            s[k].mass as int
        } else {
            0
        }));
        assert(reach_mass_upto(s, c + 2, n) == reach_mass_upto(s, c + 2, n - 1) + (if 0 <= k
            < s.len() && s[k].is_leaf() && reaches(s, c + 2, k) {
            s[k].mass as int
        } else {
            0
        }));
        assert(reach_mass_upto(s, c + 3, n) == reach_mass_upto(s, c + 3, n - 1) + (if 0 <= k
            < s.len() && s[k].is_leaf() && reaches(s, c + 3, k) {
            s[k].mass as int
        } else {
            0
        }));
        assert(reach_mass_upto(s, c + 4, n) == reach_mass_upto(s, c + 4, n - 1) + (if 0 <= k
            < s.len() && s[k].is_leaf() && reaches(s, c + 4, k) {
            s[k].mass as int
        } else {
            0
        }));
        assert(reach_mass_upto(s, c + 5, n) == reach_mass_upto(s, c + 5, n - 1) + (if 0 <= k
            < s.len() && s[k].is_leaf() && reaches(s, c + 5, k) {
            s[k].mass as int
        } else {
            0
        }));
        assert(reach_mass_upto(s, c + 6, n) == reach_mass_upto(s, c + 6, n - 1) + (if 0 <= k
            < s.len() && s[k].is_leaf() && reaches(s, c + 6, k) {
            s[k].mass as int
        } else {
            0
        }));
        assert(reach_mass_upto(s, c + 7, n) == reach_mass_upto(s, c + 7, n - 1) + (if 0 <= k
            < s.len() && s[k].is_leaf() && reaches(s, c + 7, k) {
            s[k].mass as int
        } else {
            0
        }));
        if k == i || !(0 <= k < s.len()) {
            assert forall|j2: int| 0 <= j2 < 8 implies !(#[trigger] reaches(s, c + j2, k)) by {
                if reaches(s, c + j2, k) {
                    lemma_reaches_le(s, c + j2, k);
                    if k == i {
                        assert(c + j2 > i);
                    }
                }
            };
        } else if s[k].is_leaf() {
            lemma_reaches_via_child(s, i, k);
            if reaches(s, i, k) {
                let j = choose|j: int|
                    0 <= j < 8 && #[trigger] reaches(s, s[i].children + j, k);
                assert(reaches(s, c + j, k));
                assert(j == 0 || !reaches(s, c, k)) by {
                    if j != 0 && reaches(s, c, k) {
                        lemma_reaches_child_unique(s, i, j, 0, k);
                    }
                };
                assert(j == 1 || !reaches(s, c + 1, k)) by {
                    if j != 1 && reaches(s, c + 1, k) {
                        lemma_reaches_child_unique(s, i, j, 1, k);
                    }
                };
                assert(j == 2 || !reaches(s, c + 2, k)) by {
                    if j != 2 && reaches(s, c + 2, k) {
                        lemma_reaches_child_unique(s, i, j, 2, k);
                    }
                };
                assert(j == 3 || !reaches(s, c + 3, k)) by {
                    if j != 3 && reaches(s, c + 3, k) {
                        lemma_reaches_child_unique(s, i, j, 3, k);
                    }
                };
                assert(j == 4 || !reaches(s, c + 4, k)) by {
                    if j != 4 && reaches(s, c + 4, k) {
                        lemma_reaches_child_unique(s, i, j, 4, k);
                    }
                };
                assert(j == 5 || !reaches(s, c + 5, k)) by {
                    if j != 5 && reaches(s, c + 5, k) {
                        lemma_reaches_child_unique(s, i, j, 5, k);
                    }
                };
                assert(j == 6 || !reaches(s, c + 6, k)) by {
                    if j != 6 && reaches(s, c + 6, k) {
                        lemma_reaches_child_unique(s, i, j, 6, k);
                    }
                };
                assert(j == 7 || !reaches(s, c + 7, k)) by {
                    if j != 7 && reaches(s, c + 7, k) {
                        lemma_reaches_child_unique(s, i, j, 7, k);
                    }
                };
                assert(reach_mass_upto(s, i, n) == reach_mass_upto(s, i, n - 1)
                    + s[k].mass as int);
            } else {
                assert(!reaches(s, c, k)) by {
                    if reaches(s, c, k) {
                        lemma_reaches_from_child(s, i, 0, k);
                    }
                };
                assert(!reaches(s, c + 1, k)) by {
                    if reaches(s, c + 1, k) {
                        lemma_reaches_from_child(s, i, 1, k);
                    }
                };
                assert(!reaches(s, c + 2, k)) by {
                    if reaches(s, c + 2, k) {
                        lemma_reaches_from_child(s, i, 2, k);
                    }
                };
                assert(!reaches(s, c + 3, k)) by {
                    if reaches(s, c + 3, k) {
                        lemma_reaches_from_child(s, i, 3, k);
                    }
                };
                assert(!reaches(s, c + 4, k)) by {
                    if reaches(s, c + 4, k) {
                        lemma_reaches_from_child(s, i, 4, k);
                    }
                };
                assert(!reaches(s, c + 5, k)) by {
                    if reaches(s, c + 5, k) {
                        lemma_reaches_from_child(s, i, 5, k);
                    }
                };
                assert(!reaches(s, c + 6, k)) by {
                    if reaches(s, c + 6, k) {
                        lemma_reaches_from_child(s, i, 6, k);
                    }
                };
                assert(!reaches(s, c + 7, k)) by {
                    if reaches(s, c + 7, k) {
                        lemma_reaches_from_child(s, i, 7, k);
                    }
                };
                assert(reach_mass_upto(s, i, n) == reach_mass_upto(s, i, n - 1));
            }
        }
    }
}

/// Every slot hangs under the root.
proof fn lemma_all_reach_root(s: Seq<FlatNode>, k: int)
    requires
        forall|t: int| 2 <= t < s.len() ==> #[trigger] parent_ok(s, t),
        1 <= k < s.len(),
    ensures
        reaches(s, 1, k),
    decreases k,
{
    if k > 1 {
        assert(parent_ok(s, k));
        lemma_all_reach_root(s, s[k].parent@);
    }
}

/// The mass under the root is the whole leaf-mass sum.
proof fn lemma_rmu_root(s: Seq<FlatNode>, n: int)
    requires
        forall|t: int| 2 <= t < s.len() ==> #[trigger] parent_ok(s, t),
        n <= s.len(),
    ensures
        reach_mass_upto(s, 1, n) == leaf_mass_upto(s, n),
    decreases n,
{
    if n > 1 {
        lemma_rmu_root(s, n - 1);
        if 1 <= n - 1 {
            lemma_all_reach_root(s, n - 1);
        }
    }
}

/// The mass under any node is at most the whole leaf-mass sum, and never
/// negative.
proof fn lemma_rmu_le_lmu(s: Seq<FlatNode>, i: int, n: int)
    requires
        forall|t: int| 1 <= t < s.len() ==> (#[trigger] s[t]).mass >= 0,
        n <= s.len(),
    ensures
        0 <= reach_mass_upto(s, i, n) <= leaf_mass_upto(s, n),
    decreases n,
{
    if n > 1 {
        lemma_rmu_le_lmu(s, i, n - 1);
    }
}

/// 2^MAX_DEPTH equals the published half-extent step, and a unit cube at
/// the depth cap is trivially halvable no further.
proof fn lemma_pow2i_step()
    ensures
        pow2i((MAX_DEPTH - 0) as nat) == HALF_EXTENT_STEP as int,
        pow2i((MAX_DEPTH - MAX_DEPTH) as nat) == 1,
{
    reveal_with_fuel(pow2i, 9);
}

} // verus!
