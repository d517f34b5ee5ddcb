//! Axis-aligned bounding boxes.

use vstd::prelude::*;
use crate::math::{abs, within, Iso3, Pnt3, Vec3, COORD_LIMIT};

verus! {

pub open spec fn min_i(a: i64, b: i64) -> i64 {
    if a <= b { a } else { b }
}

pub open spec fn max_i(a: i64, b: i64) -> i64 {
    if a >= b { a } else { b }
}

fn min_i64(a: i64, b: i64) -> (r: i64)
    ensures
        r == min_i(a, b),
{
    if a <= b { a } else { b }
}

fn max_i64(a: i64, b: i64) -> (r: i64)
    ensures
        r == max_i(a, b),
{
    if a >= b { a } else { b }
}

/// An axis-aligned box `[mins, maxs]`, closed on every face.
#[derive(Clone, Copy, Debug, PartialEq, Eq, Structural)]
pub struct Aabb {
    pub mins: Pnt3,
    pub maxs: Pnt3,
}

/// Largest absolute coordinate of a box stored in a tree: a caller's box
/// loosened by a margin of at most `COORD_LIMIT`.
pub open spec fn tree_limit() -> int {
    2 * COORD_LIMIT
}

impl Aabb {
    /// Every minimum lies below its maximum.
    pub open spec fn wf(self) -> bool {
        &&& self.mins.x <= self.maxs.x
        &&& self.mins.y <= self.maxs.y
        &&& self.mins.z <= self.maxs.z
    }

    /// Every coordinate lies in `[-lim, lim]`.
    pub open spec fn bounded(self, lim: int) -> bool {
        self.mins.bounded(lim) && self.maxs.bounded(lim)
    }

    /// The two boxes overlap on every axis.
    pub open spec fn intersects_spec(self, o: Aabb) -> bool {
        &&& self.mins.x <= o.maxs.x && o.mins.x <= self.maxs.x
        &&& self.mins.y <= o.maxs.y && o.mins.y <= self.maxs.y
        &&& self.mins.z <= o.maxs.z && o.mins.z <= self.maxs.z
    }

    /// `o` lies inside this box on every axis.
    pub open spec fn contains_spec(self, o: Aabb) -> bool {
        &&& self.mins.x <= o.mins.x && o.maxs.x <= self.maxs.x
        &&& self.mins.y <= o.mins.y && o.maxs.y <= self.maxs.y
        &&& self.mins.z <= o.mins.z && o.maxs.z <= self.maxs.z
    }

    /// The point lies inside this box.
    pub open spec fn contains_point_spec(self, p: Pnt3) -> bool {
        &&& self.mins.x <= p.x <= self.maxs.x
        &&& self.mins.y <= p.y <= self.maxs.y
        &&& self.mins.z <= p.z <= self.maxs.z
    }

    /// The smallest box holding both.
    pub open spec fn merged_spec(self, o: Aabb) -> Aabb {
        Aabb {
            mins: Pnt3 {
                x: min_i(self.mins.x, o.mins.x),
                y: min_i(self.mins.y, o.mins.y),
                z: min_i(self.mins.z, o.mins.z),
            },
            maxs: Pnt3 {
                x: max_i(self.maxs.x, o.maxs.x),
                y: max_i(self.maxs.y, o.maxs.y),
                z: max_i(self.maxs.z, o.maxs.z),
            },
        }
    }

    /// Loosening by `k` stays within the machine integers.
    pub open spec fn can_loosen(self, k: int) -> bool {
        &&& 0 <= k
        &&& self.bounded(i64::MAX - k)
    }

    /// Every face pushed outwards by `k`.
    pub open spec fn loosened_spec(self, k: int) -> Aabb {
        Aabb {
            mins: Pnt3 {
                x: (self.mins.x - k) as i64,
                y: (self.mins.y - k) as i64,
                z: (self.mins.z - k) as i64,
            },
            maxs: Pnt3 {
                x: (self.maxs.x + k) as i64,
                y: (self.maxs.y + k) as i64,
                z: (self.maxs.z + k) as i64,
            },
        }
    }

    /// Product of the three extents.
    pub open spec fn volume_spec(self) -> int {
        (self.maxs.x - self.mins.x) * (self.maxs.y - self.mins.y) * (self.maxs.z - self.mins.z)
    }

    /// Creates a box from its two corners.
    pub fn new(mins: Pnt3, maxs: Pnt3) -> (r: Aabb)
        requires
            mins.x <= maxs.x,
            mins.y <= maxs.y,
            mins.z <= maxs.z,
        ensures
            r.wf(),
            r.mins == mins,
            r.maxs == maxs,
    {
        Aabb { mins, maxs }
    }

    /// The corner with the smallest coordinates.
    pub fn mins(&self) -> (r: Pnt3)
        ensures
            r == self.mins,
    {
        self.mins
    }

    /// The corner with the largest coordinates.
    pub fn maxs(&self) -> (r: Pnt3)
        ensures
            r == self.maxs,
    {
        self.maxs
    }

    /// Whether the two boxes overlap (touching faces count).
    pub fn intersects(&self, other: &Aabb) -> (r: bool)
        ensures
            r == self.intersects_spec(*other),
    {
        self.mins.x <= other.maxs.x && other.mins.x <= self.maxs.x
            && self.mins.y <= other.maxs.y && other.mins.y <= self.maxs.y
            && self.mins.z <= other.maxs.z && other.mins.z <= self.maxs.z
    }

    /// Whether `other` lies inside this box.
    pub fn contains(&self, other: &Aabb) -> (r: bool)
        ensures
            r == self.contains_spec(*other),
    {
        self.mins.x <= other.mins.x && other.maxs.x <= self.maxs.x
            && self.mins.y <= other.mins.y && other.maxs.y <= self.maxs.y
            && self.mins.z <= other.mins.z && other.maxs.z <= self.maxs.z
    }

    /// Whether the point lies inside this box.
    pub fn contains_point(&self, p: &Pnt3) -> (r: bool)
        ensures
            r == self.contains_point_spec(*p),
    {
        self.mins.x <= p.x && p.x <= self.maxs.x
            && self.mins.y <= p.y && p.y <= self.maxs.y
            && self.mins.z <= p.z && p.z <= self.maxs.z
    }

    /// Grows this box to the smallest one holding both.
    pub fn merge(&mut self, other: &Aabb)
        ensures
            *final(self) == old(self).merged_spec(*other),
    {
        *self = self.merged(other);
    }

    /// The smallest box holding both.
    pub fn merged(&self, other: &Aabb) -> (r: Aabb)
        ensures
            r == self.merged_spec(*other),
    {
        Aabb {
            mins: Pnt3 {
                x: min_i64(self.mins.x, other.mins.x),
                y: min_i64(self.mins.y, other.mins.y),
                z: min_i64(self.mins.z, other.mins.z),
            },
            maxs: Pnt3 {
                x: max_i64(self.maxs.x, other.maxs.x),
                y: max_i64(self.maxs.y, other.maxs.y),
                z: max_i64(self.maxs.z, other.maxs.z),
            },
        }
    }

    /// Pushes every face outwards by `amount`.
    pub fn loosen(&mut self, amount: i64)
        requires
            old(self).can_loosen(amount as int),
        ensures
            *final(self) == old(self).loosened_spec(amount as int),
    {
        *self = self.loosened(amount);
    }

    /// This box with every face pushed outwards by `amount`.
    pub fn loosened(&self, amount: i64) -> (r: Aabb)
        requires
            self.can_loosen(amount as int),
        ensures
            r == self.loosened_spec(amount as int),
    {
        Aabb {
            mins: Pnt3 { x: self.mins.x - amount, y: self.mins.y - amount, z: self.mins.z - amount },
            maxs: Pnt3 { x: self.maxs.x + amount, y: self.maxs.y + amount, z: self.maxs.z + amount },
        }
    }

    /// This box moved by `v`.
    pub fn translated(&self, v: &Vec3) -> (r: Aabb)
        requires
            self.bounded(tree_limit()),
            v.bounded(COORD_LIMIT as int),
        ensures
            r.mins == (Pnt3 { x: (self.mins.x + v.x) as i64, y: (self.mins.y + v.y) as i64, z: (self.mins.z + v.z) as i64 }),
            r.maxs == (Pnt3 { x: (self.maxs.x + v.x) as i64, y: (self.maxs.y + v.y) as i64, z: (self.maxs.z + v.z) as i64 }),
    {
        Aabb {
            mins: Pnt3 { x: self.mins.x + v.x, y: self.mins.y + v.y, z: self.mins.z + v.z },
            maxs: Pnt3 { x: self.maxs.x + v.x, y: self.maxs.y + v.y, z: self.maxs.z + v.z },
        }
    }

    /// The product of the three extents.
    pub fn volume(&self) -> (r: u128)
        requires
            self.wf(),
            self.bounded(tree_limit()),
        ensures
            r == self.volume_spec(),
            r <= 0x4000_0000_0000_0000_0000_0000_0000_0000u128,
    {
        let dx = (self.maxs.x - self.mins.x) as u128;
        let dy = (self.maxs.y - self.mins.y) as u128;
        let dz = (self.maxs.z - self.mins.z) as u128;
        proof {
            assert(dx * dy <= 0x10_0000_0000_0000_0000_0000u128) by (nonlinear_arith)
                requires dx <= 0x400_0000_0000u128, dy <= 0x400_0000_0000u128;
            assert(dx * dy * dz <= 0x4000_0000_0000_0000_0000_0000_0000_0000u128) by (nonlinear_arith)
                requires dx * dy <= 0x10_0000_0000_0000_0000_0000u128, dz <= 0x400_0000_0000u128;
        }
        dx * dy * dz
    }
}

/// A box centred on the origin of its local frame, given by its half extents.
#[derive(Clone, Copy, Debug, PartialEq, Eq, Structural)]
pub struct Cuboid {
    pub half_extents: Vec3,
}

impl Cuboid {
    /// Creates a cuboid from non-negative half extents.
    pub fn new(half_extents: Vec3) -> (r: Cuboid)
        requires
            half_extents.x >= 0 && half_extents.y >= 0 && half_extents.z >= 0,
        ensures
            r.half_extents == half_extents,
    {
        Cuboid { half_extents }
    }

    /// The world-space box of this cuboid under `m`: the image of the local
    /// origin, plus and minus the half extents under the absolute rotation.
    pub fn aabb(&self, m: &Iso3) -> (r: Aabb)
        requires
            m.wf(),
            self.half_extents.bounded(COORD_LIMIT as int),
            self.half_extents.x >= 0 && self.half_extents.y >= 0 && self.half_extents.z >= 0,
        ensures
            r.wf(),
            r.mins.x == m.translation.x - m.row0.abs_dot_spec(self.half_extents),
            r.mins.y == m.translation.y - m.row1.abs_dot_spec(self.half_extents),
            r.mins.z == m.translation.z - m.row2.abs_dot_spec(self.half_extents),
            r.maxs.x == m.translation.x + m.row0.abs_dot_spec(self.half_extents),
            r.maxs.y == m.translation.y + m.row1.abs_dot_spec(self.half_extents),
            r.maxs.z == m.translation.z + m.row2.abs_dot_spec(self.half_extents),
    {
        let o = Pnt3::origin();
        let center = m.transform_point(&o);
        let ws = m.absolute_rotate(&self.half_extents);
        proof {
            let h = self.half_extents;
            assert(m.row0.abs_dot_spec(h) >= 0) by (nonlinear_arith)
                requires h.x >= 0, h.y >= 0, h.z >= 0, m.row0.abs_dot_spec(h)
                    == abs(m.row0.x as int) * h.x + abs(m.row0.y as int) * h.y + abs(m.row0.z as int) * h.z;
            assert(m.row1.abs_dot_spec(h) >= 0) by (nonlinear_arith)
                requires h.x >= 0, h.y >= 0, h.z >= 0, m.row1.abs_dot_spec(h)
                    == abs(m.row1.x as int) * h.x + abs(m.row1.y as int) * h.y + abs(m.row1.z as int) * h.z;
            assert(m.row2.abs_dot_spec(h) >= 0) by (nonlinear_arith)
                requires h.x >= 0, h.y >= 0, h.z >= 0, m.row2.abs_dot_spec(h)
                    == abs(m.row2.x as int) * h.x + abs(m.row2.y as int) * h.y + abs(m.row2.z as int) * h.z;
            assert(m.row0.dot_spec(Vec3 { x: 0, y: 0, z: 0 }) == 0);
            assert(m.row1.dot_spec(Vec3 { x: 0, y: 0, z: 0 }) == 0);
            assert(m.row2.dot_spec(Vec3 { x: 0, y: 0, z: 0 }) == 0);
        }
        Aabb {
            mins: Pnt3 { x: center.x - ws.x, y: center.y - ws.y, z: center.z - ws.z },
            maxs: Pnt3 { x: center.x + ws.x, y: center.y + ws.y, z: center.z + ws.z },
        }
    }
}

/// Every well-formed box contains and intersects itself.
pub proof fn lemma_aabb_reflexive(a: Aabb)
    requires
        a.wf(),
    ensures
        a.contains_spec(a),
        a.intersects_spec(a),
{
}

/// Overlap does not depend on the order of the two boxes.
pub proof fn lemma_aabb_intersects_symmetric(a: Aabb, b: Aabb)
    ensures
        a.intersects_spec(b) == b.intersects_spec(a),
{
}

/// The merge of two boxes contains both of them.
pub proof fn lemma_aabb_merged_contains(a: Aabb, b: Aabb)
    ensures
        a.merged_spec(b).contains_spec(a),
        a.merged_spec(b).contains_spec(b),
{
}

/// Loosening by a non-negative amount gives a box that contains the given
/// one; loosening by zero gives the same box back.
pub proof fn lemma_aabb_loosened_contains(a: Aabb, k: int)
    requires
        a.can_loosen(k),
    ensures
        a.loosened_spec(k).contains_spec(a),
        a.loosened_spec(0) == a,
{
}

/// Containment is transitive, and a well-formed box that is contained in
/// another intersects it.
pub proof fn lemma_aabb_contains_transitive(a: Aabb, b: Aabb, c: Aabb)
    ensures
        a.contains_spec(b) && b.contains_spec(c) ==> a.contains_spec(c),
        b.wf() && a.contains_spec(b) ==> a.intersects_spec(b),
{
}

} // verus!
