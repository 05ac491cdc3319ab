//! Axis-aligned cubes: containment, octant codes and exact octant subdivision.

use vstd::prelude::*;
use crate::vec3::IVec3;
use crate::numeric::{pow2i, lemma_pow2i_pos, lemma_halve_divisibility};
use crate::{COORD_LIMIT, MAX_DEPTH};

verus! {

/// An axis-aligned cube given by its center and half-extent.
#[derive(Clone, Copy, PartialEq, Eq, Structural, Debug)]
pub struct Bounds {
    pub center: IVec3,
    pub half: i64,
}

impl Bounds {
    /// The cube is non-degenerate and lies, with margin, inside the
    /// coordinate range the trees accept.
    pub open spec fn wf(self) -> bool {
        &&& 0 < self.half <= COORD_LIMIT
        &&& -COORD_LIMIT <= self.center.x - self.half
        &&& self.center.x + self.half <= COORD_LIMIT
        &&& -COORD_LIMIT <= self.center.y - self.half
        &&& self.center.y + self.half <= COORD_LIMIT
        &&& -COORD_LIMIT <= self.center.z - self.half
        &&& self.center.z + self.half <= COORD_LIMIT
    }

    /// The point lies in the closed cube.
    pub open spec fn covers(self, p: IVec3) -> bool {
        &&& self.center.x - self.half <= p.x <= self.center.x + self.half
        &&& self.center.y - self.half <= p.y <= self.center.y + self.half
        &&& self.center.z - self.half <= p.z <= self.center.z + self.half
    }

    /// 3-bit octant code of a point relative to the center: bit 0 set when
    /// x lies strictly above the center, bit 1 for y, bit 2 for z.
    pub open spec fn octant_of(self, p: IVec3) -> int {
        (if p.x > self.center.x { 1int } else { 0 })
            + (if p.y > self.center.y { 2int } else { 0 })
            + (if p.z > self.center.z { 4int } else { 0 })
    }

    /// The sub-cube covering octant `i` (0..8), for an even half-extent.
    pub open spec fn octant_box(self, i: int) -> Bounds {
        let h = self.half as int / 2;
        Bounds {
            center: IVec3 {
                x: (self.center.x + if i % 2 == 1 { h } else { -h }) as i64,
                y: (self.center.y + if (i / 2) % 2 == 1 { h } else { -h }) as i64,
                z: (self.center.z + if (i / 4) % 2 == 1 { h } else { -h }) as i64,
            },
            half: h as i64,
        }
    }

    pub fn contains(&self, p: IVec3) -> (b: bool)
        requires
            self.wf(),
        ensures
            b == self.covers(p),
    {
        p.x >= self.center.x - self.half && p.x <= self.center.x + self.half
            && p.y >= self.center.y - self.half && p.y <= self.center.y + self.half
            && p.z >= self.center.z - self.half && p.z <= self.center.z + self.half
    }

    pub fn octant(&self, p: IVec3) -> (i: usize)
        ensures
            i == self.octant_of(p),
            i < 8,
    {
        let mut index: usize = 0;
        if p.x > self.center.x {
            index = index + 1;
        }
        if p.y > self.center.y {
            index = index + 2;
        }
        if p.z > self.center.z {
            index = index + 4;
        }
        index
    }

    /// Builds the sub-cube of octant `i`; the half-extent must be even so
    /// the eight octants tile the cube exactly.
    pub fn make_octant(&self, i: usize) -> (b: Bounds)
        requires
            self.wf(),
            self.half as int % 2 == 0,
            i < 8,
        ensures
            b == self.octant_box(i as int),
    {
        let h: i64 = ((self.half as u64) / 2) as i64;
        proof {
            assert(h == self.half as int / 2);
        }
        let cx: i64 = if i % 2 == 1 { self.center.x + h } else { self.center.x - h };
        let cy: i64 = if (i / 2) % 2 == 1 { self.center.y + h } else { self.center.y - h };
        let cz: i64 = if (i / 4) % 2 == 1 { self.center.z + h } else { self.center.z - h };
        Bounds { center: IVec3 { x: cx, y: cy, z: cz }, half: h }
    }
}

/// An even-sided well-formed cube has well-formed octant boxes.
pub proof fn lemma_octant_box_wf(b: Bounds, i: int)
    requires
        b.wf(),
        b.half as int % 2 == 0,
        0 <= i < 8,
    ensures
        b.octant_box(i).wf(),
        b.octant_box(i).half == b.half as int / 2,
{
    assert(b.half as int == 2 * (b.half as int / 2));
}

/// A covered point is covered by the octant box its octant code names.
pub proof fn lemma_octant_covers(b: Bounds, p: IVec3)
    requires
        b.wf(),
        b.half as int % 2 == 0,
        b.covers(p),
    ensures
        b.octant_box(b.octant_of(p)).covers(p),
{
    let i = b.octant_of(p);
    assert(b.half as int == 2 * (b.half as int / 2));
    assert(i % 2 == 1 <==> p.x > b.center.x) by {
        if p.x > b.center.x {
            assert(i % 2 == 1);
        } else {
            assert(i % 2 == 0);
        }
    };
    assert((i / 2) % 2 == 1 <==> p.y > b.center.y) by {
        if p.y > b.center.y {
            assert((i / 2) % 2 == 1);
        } else {
            assert((i / 2) % 2 == 0);
        }
    };
    assert((i / 4) % 2 == 1 <==> p.z > b.center.z) by {
        if p.z > b.center.z {
            assert((i / 4) % 2 == 1);
        } else {
            assert((i / 4) % 2 == 0);
        }
    };
}

/// Any point covered by an octant box is covered by the parent cube.
pub proof fn lemma_octant_within(b: Bounds, i: int, p: IVec3)
    requires
        b.wf(),
        b.half as int % 2 == 0,
        0 <= i < 8,
        b.octant_box(i).covers(p),
    ensures
        b.covers(p),
{
    assert(b.half as int == 2 * (b.half as int / 2));
}

/// Halving preserves the power-of-two divisibility budget that permits
/// further subdivisions.
pub proof fn lemma_octant_divisibility(b: Bounds, i: int, level: u32)
    requires
        b.wf(),
        level < MAX_DEPTH,
        b.half as int % pow2i((MAX_DEPTH - level) as nat) == 0,
        0 <= i < 8,
    ensures
        b.half as int % 2 == 0,
        b.octant_box(i).half as int % pow2i((MAX_DEPTH - (level + 1)) as nat) == 0,
{
    let e = (MAX_DEPTH - (level + 1)) as nat;
    assert((MAX_DEPTH - level) as nat == e + 1);
    lemma_halve_divisibility(b.half as int, e);
    lemma_pow2i_pos(e);
    assert(b.half as int == 2 * (b.half as int / 2));
}

} // verus!
