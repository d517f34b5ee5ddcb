//! Scalars, points, vectors and isometries on an integer grid.

use vstd::prelude::*;

verus! {

/// Scalar types: coordinates are integers on a fixed grid.
pub trait Scalar {}

impl Scalar for i64 {}

/// Point types.
pub trait Point {}

impl Point for Pnt3 {}

/// Vector types.
pub trait Vect {}

impl Vect for Vec3 {}

/// Rigid motion types.
pub trait Isometry {}

impl Isometry for Iso3 {}

/// Largest absolute value of a coordinate accepted from a caller.
pub const COORD_LIMIT: i64 = 1099511627776;

/// A point of the 3D grid.
#[derive(Clone, Copy, Debug, PartialEq, Eq, Structural)]
pub struct Pnt3 {
    pub x: i64,
    pub y: i64,
    pub z: i64,
}

/// A displacement of the 3D grid.
#[derive(Clone, Copy, Debug, PartialEq, Eq, Structural)]
pub struct Vec3 {
    pub x: i64,
    pub y: i64,
    pub z: i64,
}

pub open spec fn within(v: int, lim: int) -> bool {
    -lim <= v <= lim
}

impl Pnt3 {
    pub open spec fn bounded(self, lim: int) -> bool {
        within(self.x as int, lim) && within(self.y as int, lim) && within(self.z as int, lim)
    }

    pub fn new(x: i64, y: i64, z: i64) -> (r: Pnt3)
        ensures
            r == (Pnt3 { x, y, z }),
    {
        Pnt3 { x, y, z }
    }

    /// The origin of the grid.
    pub fn origin() -> (r: Pnt3)
        ensures
            r == (Pnt3 { x: 0, y: 0, z: 0 }),
    {
        Pnt3 { x: 0, y: 0, z: 0 }
    }
}

impl Vec3 {
    pub open spec fn bounded(self, lim: int) -> bool {
        within(self.x as int, lim) && within(self.y as int, lim) && within(self.z as int, lim)
    }

    pub fn new(x: i64, y: i64, z: i64) -> (r: Vec3)
        ensures
            r == (Vec3 { x, y, z }),
    {
        Vec3 { x, y, z }
    }
}

/// Absolute value of an integer.
pub open spec fn abs(v: int) -> int {
    if v < 0 { -v } else { v }
}

/// A rigid motion of the grid: a rotation given by its three rows, whose
/// entries are -1, 0 or 1 (a signed permutation for proper rotations),
/// followed by a translation.
#[derive(Clone, Copy, Debug, PartialEq, Eq, Structural)]
pub struct Iso3 {
    pub row0: Vec3,
    pub row1: Vec3,
    pub row2: Vec3,
    pub translation: Vec3,
}

impl Vec3 {
    pub open spec fn unit_entries(self) -> bool {
        self.bounded(1)
    }

    pub open spec fn dot_spec(self, v: Vec3) -> int {
        self.x * v.x + self.y * v.y + self.z * v.z
    }

    pub open spec fn abs_dot_spec(self, v: Vec3) -> int {
        abs(self.x as int) * v.x + abs(self.y as int) * v.y + abs(self.z as int) * v.z
    }
}

/// Dot product of a row with entries in [-1, 1] and a bounded vector.
fn row_dot(row: &Vec3, v: &Vec3) -> (r: i64)
    requires
        row.unit_entries(),
        v.bounded(COORD_LIMIT as int),
    ensures
        r == row.dot_spec(*v),
        within(r as int, 3 * COORD_LIMIT),
{
    proof {
        assert(within(row.x * v.x, COORD_LIMIT as int)) by (nonlinear_arith)
            requires row.unit_entries(), v.bounded(COORD_LIMIT as int);
        assert(within(row.y * v.y, COORD_LIMIT as int)) by (nonlinear_arith)
            requires row.unit_entries(), v.bounded(COORD_LIMIT as int);
        assert(within(row.z * v.z, COORD_LIMIT as int)) by (nonlinear_arith)
            requires row.unit_entries(), v.bounded(COORD_LIMIT as int);
    }
    row.x * v.x + row.y * v.y + row.z * v.z
}

fn abs_i64(v: i64) -> (r: i64)
    requires
        v > i64::MIN,
    ensures
        r == abs(v as int),
{
    if v < 0 { -v } else { v }
}

/// Dot product of the absolute values of a row with a bounded vector.
fn row_abs_dot(row: &Vec3, v: &Vec3) -> (r: i64)
    requires
        row.unit_entries(),
        v.bounded(COORD_LIMIT as int),
    ensures
        r == row.abs_dot_spec(*v),
        within(r as int, 3 * COORD_LIMIT),
{
    let a = Vec3 { x: abs_i64(row.x), y: abs_i64(row.y), z: abs_i64(row.z) };
    row_dot(&a, v)
}

impl Iso3 {
    /// Rotation entries lie in [-1, 1] and the translation is within the coordinate limit.
    pub open spec fn wf(self) -> bool {
        &&& self.row0.unit_entries()
        &&& self.row1.unit_entries()
        &&& self.row2.unit_entries()
        &&& self.translation.bounded(COORD_LIMIT as int)
    }

    /// The identity motion.
    pub fn identity() -> (r: Iso3)
        ensures
            r.wf(),
            r.row0 == (Vec3 { x: 1, y: 0, z: 0 }),
            r.row1 == (Vec3 { x: 0, y: 1, z: 0 }),
            r.row2 == (Vec3 { x: 0, y: 0, z: 1 }),
            r.translation == (Vec3 { x: 0, y: 0, z: 0 }),
    {
        Iso3 {
            row0: Vec3 { x: 1, y: 0, z: 0 },
            row1: Vec3 { x: 0, y: 1, z: 0 },
            row2: Vec3 { x: 0, y: 0, z: 1 },
            translation: Vec3 { x: 0, y: 0, z: 0 },
        }
    }

    /// Builds a motion from the rows of its rotation and its translation.
    pub fn new(row0: Vec3, row1: Vec3, row2: Vec3, translation: Vec3) -> (r: Iso3)
        ensures
            r == (Iso3 { row0, row1, row2, translation }),
    {
        Iso3 { row0, row1, row2, translation }
    }

    /// The image of a point: rotation, then translation.
    pub fn transform_point(&self, p: &Pnt3) -> (r: Pnt3)
        requires
            self.wf(),
            p.bounded(COORD_LIMIT as int),
        ensures
            r.x == self.row0.dot_spec(Vec3 { x: p.x, y: p.y, z: p.z }) + self.translation.x,
            r.y == self.row1.dot_spec(Vec3 { x: p.x, y: p.y, z: p.z }) + self.translation.y,
            r.z == self.row2.dot_spec(Vec3 { x: p.x, y: p.y, z: p.z }) + self.translation.z,
            r.bounded(4 * COORD_LIMIT),
    {
        let v = Vec3 { x: p.x, y: p.y, z: p.z };
        Pnt3 {
            x: row_dot(&self.row0, &v) + self.translation.x,
            y: row_dot(&self.row1, &v) + self.translation.y,
            z: row_dot(&self.row2, &v) + self.translation.z,
        }
    }

    /// The rotation applied to a vector with every entry replaced by its absolute value.
    pub fn absolute_rotate(&self, v: &Vec3) -> (r: Vec3)
        requires
            self.wf(),
            v.bounded(COORD_LIMIT as int),
        ensures
            r.x == self.row0.abs_dot_spec(*v),
            r.y == self.row1.abs_dot_spec(*v),
            r.z == self.row2.abs_dot_spec(*v),
            r.bounded(3 * COORD_LIMIT),
    {
        Vec3 {
            x: row_abs_dot(&self.row0, v),
            y: row_abs_dot(&self.row1, v),
            z: row_abs_dot(&self.row2, v),
        }
    }
}

} // verus!
