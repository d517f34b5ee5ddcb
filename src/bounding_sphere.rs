//! Bounding spheres on the integer grid.

use vstd::prelude::*;
use crate::aabb::Cuboid;
use crate::math::{Iso3, Pnt3, Vec3, COORD_LIMIT};

verus! {

/// Largest radius of a bounding sphere.
pub const RADIUS_LIMIT: i64 = 1152921504606846976;

/// Largest absolute coordinate of a bounding sphere's center.
pub open spec fn center_limit() -> int {
    4 * COORD_LIMIT
}

pub open spec fn sq(v: int) -> int {
    v * v
}

/// Squared distance between two points.
pub open spec fn sq_dist(a: Pnt3, b: Pnt3) -> int {
    sq(b.x - a.x) + sq(b.y - a.y) + sq(b.z - a.z)
}

/// `s` is the smallest natural number whose square is at least `v`.
pub open spec fn is_ceil_sqrt(s: int, v: int) -> bool {
    &&& 0 <= s
    &&& v <= s * s
    &&& (s == 0 || (s - 1) * (s - 1) < v)
}

/// The smallest natural number whose square is at least `v`.
pub open spec fn ceil_sqrt_of(v: int) -> int {
    choose|s: int| is_ceil_sqrt(s, v)
}

/// `num / den` rounded towards zero, for a positive `den`.
pub open spec fn div_trunc(num: int, den: int) -> int {
    if num >= 0 { num / den } else { -((-num) / den) }
}

/// The point at the fraction `f / den` of the way from `a` to `b`, each
/// coordinate rounded towards `a`.
pub open spec fn along_axis(a: Pnt3, b: Pnt3, f: int, den: int) -> Pnt3 {
    Pnt3 {
        x: (a.x + div_trunc((b.x - a.x) * f, den)) as i64,
        y: (a.y + div_trunc((b.y - a.y) * f, den)) as i64,
        z: (a.z + div_trunc((b.z - a.z) * f, den)) as i64,
    }
}

/// The center of the ball enclosing `a` and `b` along the axis of their
/// centers: with `d` the rounded-up distance of the centers, it lies at
/// `(d + rb - ra) / (2 d)` of the way from `a`'s center to `b`'s.
pub open spec fn merged_center(a: BoundingSphere, b: BoundingSphere) -> Pnt3 {
    let d = ceil_sqrt_of(sq_dist(a.center_spec(), b.center_spec()));
    along_axis(a.center_spec(), b.center_spec(), d + b.radius_spec() - a.radius_spec(), 2 * d)
}

/// The radius of that ball: the rounded-up distance from its center to
/// each center plus that ball's radius, whichever is larger.
pub open spec fn merged_radius(a: BoundingSphere, b: BoundingSphere) -> int {
    let c = merged_center(a, b);
    max_int(
        ceil_sqrt_of(sq_dist(c, a.center_spec())) + a.radius_spec(),
        ceil_sqrt_of(sq_dist(c, b.center_spec())) + b.radius_spec(),
    )
}

proof fn lemma_ceil_sqrt_unique(s: int, v: int)
    requires
        is_ceil_sqrt(s, v),
    ensures
        ceil_sqrt_of(v) == s,
{
    let t = ceil_sqrt_of(v);
    assert(is_ceil_sqrt(t, v));
    if t < s {
        lemma_square_monotone(t, s - 1);
    } else if s < t {
        lemma_square_monotone(s, t - 1);
    }
}

/// `delta * f / den` rounded towards zero, with `0 <= f <= den`: it has the
/// sign of `delta` and at most its size.
fn axis_offset(delta: i64, f: i128, den: i128) -> (r: i64)
    requires
        -0x800_0000_0000 <= delta <= 0x800_0000_0000,
        0 <= f <= den,
        0 < den <= 0x2000_0000_0000,
    ensures
        r == div_trunc(delta * f, den as int),
        delta >= 0 ==> 0 <= r <= delta,
        delta < 0 ==> delta <= r <= 0,
{
    proof {
        assert(-0x100_0000_0000_0000_0000_0000_0000int <= delta * f <= 0x100_0000_0000_0000_0000_0000_0000int) by (nonlinear_arith)
            requires -0x800_0000_0000 <= delta <= 0x800_0000_0000, 0 <= f <= 0x2000_0000_0000;
    }
    let num = (delta as i128) * f;
    proof {
        if delta >= 0 {
            assert(0 <= delta * f <= delta * den) by (nonlinear_arith) requires delta >= 0, 0 <= f <= den;
            vstd::arithmetic::div_mod::lemma_div_is_ordered(delta * f, delta * den, den as int);
            vstd::arithmetic::div_mod::lemma_div_multiples_vanish(delta as int, den as int);
            vstd::arithmetic::div_mod::lemma_div_pos_is_pos(delta * f, den as int);
        } else {
            assert(0 <= (-delta) * f <= (-delta) * den) by (nonlinear_arith) requires delta < 0, 0 <= f <= den;
            assert(-(delta * f) == (-delta) * f) by (nonlinear_arith);
            vstd::arithmetic::div_mod::lemma_div_is_ordered((-delta) * f, (-delta) * den, den as int);
            vstd::arithmetic::div_mod::lemma_div_multiples_vanish(-delta as int, den as int);
            vstd::arithmetic::div_mod::lemma_div_pos_is_pos((-delta) * f, den as int);
        }
    }
    if num >= 0 {
        (num / den) as i64
    } else {
        -(((-num) / den) as i64)
    }
}

pub open spec fn max_int(a: int, b: int) -> int {
    if a >= b { a } else { b }
}

/// Trait implemented by objects having a bounding sphere.
pub trait HasBoundingSphere {
    /// The object's bounding sphere under the motion `m`.
    fn bounding_sphere(&self, m: &Iso3) -> BoundingSphere;
}

/// A ball given by its center and its radius.
#[derive(Clone, Copy, Debug, PartialEq, Eq, Structural)]
pub struct BoundingSphere {
    center: Pnt3,
    radius: i64,
}

/// The smallest natural number whose square is at least `v`.
fn ceil_sqrt(v: u128) -> (s: u64)
    requires
        v <= 0x100_0000_0000_0000_0000_0000u128,
    ensures
        is_ceil_sqrt(s as int, v as int),
        s <= 0x1000_0000_0000u64,
{
    if v == 0 {
        return 0;
    }
    let mut lo: u64 = 0;
    let mut hi: u64 = 0x1000_0000_0000u64;
    assert((hi as int) * (hi as int) == 0x100_0000_0000_0000_0000_0000int) by (nonlinear_arith)
        requires hi == 0x1000_0000_0000u64;
    while hi - lo > 1
        invariant
            lo < hi <= 0x1000_0000_0000u64,
            (lo as int) * (lo as int) < v,
            v <= (hi as int) * (hi as int),
        decreases hi - lo,
    {
        let mid = lo + (hi - lo) / 2;
        assert((mid as int) * (mid as int) <= 0x100_0000_0000_0000_0000_0000int) by (nonlinear_arith)
            requires mid <= 0x1000_0000_0000u64;
        if (mid as u128) * (mid as u128) >= v {
            hi = mid;
        } else {
            lo = mid;
        }
    }
    hi
}

proof fn lemma_square_monotone(a: int, b: int)
    requires
        0 <= a <= b,
    ensures
        a * a <= b * b,
{
    assert(a * a <= b * b) by (nonlinear_arith)
        requires 0 <= a <= b;
}

proof fn lemma_sq_bound(d: int, lim: int)
    requires
        -lim <= d <= lim,
    ensures
        0 <= sq(d) <= lim * lim,
{
    assert(0 <= d * d <= lim * lim) by (nonlinear_arith)
        requires -lim <= d <= lim;
}

proof fn lemma_sq_dist_symmetric(a: Pnt3, b: Pnt3)
    ensures
        sq_dist(a, b) == sq_dist(b, a),
        sq_dist(a, b) >= 0,
        sq_dist(a, a) == 0,
{
    assert(sq(b.x - a.x) == sq(a.x - b.x)) by (nonlinear_arith);
    assert(sq(b.y - a.y) == sq(a.y - b.y)) by (nonlinear_arith);
    assert(sq(b.z - a.z) == sq(a.z - b.z)) by (nonlinear_arith);
    assert(sq(b.x - a.x) >= 0) by (nonlinear_arith);
    assert(sq(b.y - a.y) >= 0) by (nonlinear_arith);
    assert(sq(b.z - a.z) >= 0) by (nonlinear_arith);
}

/// Squared distance between two points within the center limit.
fn sq_dist_exec(a: &Pnt3, b: &Pnt3) -> (r: u128)
    requires
        a.bounded(center_limit()),
        b.bounded(center_limit()),
    ensures
        r == sq_dist(*a, *b),
        r <= 0xC0_0000_0000_0000_0000_0000u128,
{
    let dx = (b.x - a.x) as i128;
    let dy = (b.y - a.y) as i128;
    let dz = (b.z - a.z) as i128;
    proof {
        lemma_sq_bound(dx as int, 0x800_0000_0000int);
        lemma_sq_bound(dy as int, 0x800_0000_0000int);
        lemma_sq_bound(dz as int, 0x800_0000_0000int);
    }
    ((dx * dx) + (dy * dy) + (dz * dz)) as u128
}

impl BoundingSphere {
    /// A radius in `[0, RADIUS_LIMIT]` and a center within the center limit.
    pub open spec fn wf(self) -> bool {
        &&& 0 <= self.radius_spec() <= RADIUS_LIMIT
        &&& self.center_spec().bounded(center_limit())
    }

    pub closed spec fn center_spec(self) -> Pnt3 {
        self.center
    }

    pub closed spec fn radius_spec(self) -> int {
        self.radius as int
    }

    /// The two balls meet.
    pub open spec fn intersects_spec(self, o: BoundingSphere) -> bool {
        sq_dist(self.center_spec(), o.center_spec()) <= sq(self.radius_spec() + o.radius_spec())
    }

    /// `o` lies inside this ball.
    pub open spec fn contains_spec(self, o: BoundingSphere) -> bool {
        &&& o.radius_spec() <= self.radius_spec()
        &&& sq_dist(self.center_spec(), o.center_spec()) <= sq(self.radius_spec() - o.radius_spec())
    }

    /// Creates a new bounding sphere.
    pub fn new(center: Pnt3, radius: i64) -> (r: BoundingSphere)
        requires
            0 <= radius <= RADIUS_LIMIT,
            center.bounded(center_limit()),
        ensures
            r.wf(),
            r.center_spec() == center,
            r.radius_spec() == radius,
    {
        BoundingSphere { center, radius }
    }

    /// The bounding sphere center.
    pub fn center(&self) -> (r: &Pnt3)
        ensures
            *r == self.center_spec(),
    {
        &self.center
    }

    /// The bounding sphere radius.
    pub fn radius(&self) -> (r: i64)
        ensures
            r == self.radius_spec(),
    {
        self.radius
    }

    /// This bounding sphere moved by `m`: its center is the image of the
    /// center, its radius is kept.
    pub fn transform_by(&self, m: &Iso3) -> (r: BoundingSphere)
        requires
            self.wf(),
            m.wf(),
            self.center_spec().bounded(COORD_LIMIT as int),
        ensures
            r.wf(),
            r.center_spec().x == m.row0.dot_spec(Vec3 { x: self.center_spec().x, y: self.center_spec().y, z: self.center_spec().z }) + m.translation.x,
            r.center_spec().y == m.row1.dot_spec(Vec3 { x: self.center_spec().x, y: self.center_spec().y, z: self.center_spec().z }) + m.translation.y,
            r.center_spec().z == m.row2.dot_spec(Vec3 { x: self.center_spec().x, y: self.center_spec().y, z: self.center_spec().z }) + m.translation.z,
            r.radius_spec() == self.radius_spec(),
    {
        BoundingSphere::new(m.transform_point(&self.center), self.radius)
    }

    /// Whether the two balls meet: the squared distance of the centers is at
    /// most the squared sum of the radii.
    pub fn intersects(&self, other: &BoundingSphere) -> (r: bool)
        requires
            self.wf(),
            other.wf(),
        ensures
            r == self.intersects_spec(*other),
    {
        let d = sq_dist_exec(&self.center, &other.center);
        let s = (self.radius as u128) + (other.radius as u128);
        proof {
            assert(s * s <= 0x0400_0000_0000_0000_0000_0000_0000_0000u128) by (nonlinear_arith)
                requires s <= 0x2000_0000_0000_0000u128;
        }
        d <= s * s
    }

    /// Whether `other` lies inside this ball: the distance of the centers plus
    /// the other radius is at most this radius.
    pub fn contains(&self, other: &BoundingSphere) -> (r: bool)
        requires
            self.wf(),
            other.wf(),
        ensures
            r == self.contains_spec(*other),
    {
        if other.radius > self.radius {
            return false;
        }
        let d = sq_dist_exec(&self.center, &other.center);
        let s = (self.radius - other.radius) as u128;
        proof {
            assert(s * s <= 0x0100_0000_0000_0000_0000_0000_0000_0000u128) by (nonlinear_arith)
                requires s <= 0x1000_0000_0000_0000u128;
        }
        d <= s * s
    }

    /// This ball with its radius grown by `k`.
    pub closed spec fn loosened_spec(self, k: int) -> BoundingSphere {
        BoundingSphere { center: self.center, radius: (self.radius + k) as i64 }
    }

    /// This ball with its radius grown by `amount`.
    pub fn loosened(&self, amount: i64) -> (r: BoundingSphere)
        requires
            self.wf(),
            0 <= amount,
            self.radius_spec() + amount <= RADIUS_LIMIT,
        ensures
            r.wf(),
            r == self.loosened_spec(amount as int),
            r.center_spec() == self.center_spec(),
            r.radius_spec() == self.radius_spec() + amount,
    {
        BoundingSphere { center: self.center, radius: self.radius + amount }
    }

    /// Grows the radius of this ball by `amount`.
    pub fn loosen(&mut self, amount: i64)
        requires
            old(self).wf(),
            0 <= amount,
            old(self).radius_spec() + amount <= RADIUS_LIMIT,
        ensures
            final(self).wf(),
            final(self).center_spec() == old(self).center_spec(),
            final(self).radius_spec() == old(self).radius_spec() + amount,
    {
        self.radius = self.radius + amount;
    }

    /// The position of the center, as a vector.
    pub fn translation(&self) -> (r: Vec3)
        ensures
            r == (Vec3 { x: self.center_spec().x, y: self.center_spec().y, z: self.center_spec().z }),
    {
        Vec3 { x: self.center.x, y: self.center.y, z: self.center.z }
    }

    /// The opposite of the position of the center.
    pub fn inv_translation(&self) -> (r: Vec3)
        requires
            self.wf(),
        ensures
            r == (Vec3 { x: (-self.center_spec().x) as i64, y: (-self.center_spec().y) as i64, z: (-self.center_spec().z) as i64 }),
    {
        Vec3 { x: -self.center.x, y: -self.center.y, z: -self.center.z }
    }

    /// This ball moved by `dv`.
    pub fn append_translation_cpy(&self, dv: &Vec3) -> (r: BoundingSphere)
        requires
            self.wf(),
            (Pnt3 { x: (self.center_spec().x + dv.x) as i64, y: (self.center_spec().y + dv.y) as i64, z: (self.center_spec().z + dv.z) as i64 }).bounded(center_limit()),
            dv.bounded(2 * center_limit()),
        ensures
            r.wf(),
            r.center_spec() == (Pnt3 { x: (self.center_spec().x + dv.x) as i64, y: (self.center_spec().y + dv.y) as i64, z: (self.center_spec().z + dv.z) as i64 }),
            r.radius_spec() == self.radius_spec(),
    {
        BoundingSphere {
            center: Pnt3 { x: self.center.x + dv.x, y: self.center.y + dv.y, z: self.center.z + dv.z },
            radius: self.radius,
        }
    }

    /// Moves this ball by `dv`.
    pub fn append_translation(&mut self, dv: &Vec3)
        requires
            old(self).wf(),
            (Pnt3 { x: (old(self).center_spec().x + dv.x) as i64, y: (old(self).center_spec().y + dv.y) as i64, z: (old(self).center_spec().z + dv.z) as i64 }).bounded(center_limit()),
            dv.bounded(2 * center_limit()),
        ensures
            final(self).wf(),
            final(self).center_spec() == (Pnt3 { x: (old(self).center_spec().x + dv.x) as i64, y: (old(self).center_spec().y + dv.y) as i64, z: (old(self).center_spec().z + dv.z) as i64 }),
            final(self).radius_spec() == old(self).radius_spec(),
    {
        *self = self.append_translation_cpy(dv);
    }

    /// This ball moved by `dv`; a translation acts the same on either side.
    pub fn prepend_translation_cpy(&self, dv: &Vec3) -> (r: BoundingSphere)
        requires
            self.wf(),
            (Pnt3 { x: (self.center_spec().x + dv.x) as i64, y: (self.center_spec().y + dv.y) as i64, z: (self.center_spec().z + dv.z) as i64 }).bounded(center_limit()),
            dv.bounded(2 * center_limit()),
        ensures
            r.wf(),
            r.center_spec() == (Pnt3 { x: (self.center_spec().x + dv.x) as i64, y: (self.center_spec().y + dv.y) as i64, z: (self.center_spec().z + dv.z) as i64 }),
            r.radius_spec() == self.radius_spec(),
    {
        self.append_translation_cpy(dv)
    }

    /// Moves this ball by `dv`; a translation acts the same on either side.
    pub fn prepend_translation(&mut self, dv: &Vec3)
        requires
            old(self).wf(),
            (Pnt3 { x: (old(self).center_spec().x + dv.x) as i64, y: (old(self).center_spec().y + dv.y) as i64, z: (old(self).center_spec().z + dv.z) as i64 }).bounded(center_limit()),
            dv.bounded(2 * center_limit()),
        ensures
            final(self).wf(),
            final(self).center_spec() == (Pnt3 { x: (old(self).center_spec().x + dv.x) as i64, y: (old(self).center_spec().y + dv.y) as i64, z: (old(self).center_spec().z + dv.z) as i64 }),
            final(self).radius_spec() == old(self).radius_spec(),
    {
        self.append_translation(dv);
    }

    /// Moves the center of this ball to `v`.
    pub fn set_translation(&mut self, v: Vec3)
        requires
            v.bounded(center_limit()),
        ensures
            final(self).center_spec() == (Pnt3 { x: v.x, y: v.y, z: v.z }),
            final(self).radius_spec() == old(self).radius_spec(),
    {
        self.center = Pnt3 { x: v.x, y: v.y, z: v.z };
    }

    /// A ball holding both. When one contains the other, it is the larger
    /// one. Otherwise its center lies on the axis of the two centers, where
    /// the two balls' far ends are equally distant (rounded to the grid), and
    /// its radius is rounded up so that it holds both.
    pub fn merged(&self, other: &BoundingSphere) -> (r: BoundingSphere)
        requires
            self.wf(),
            other.wf(),
            self.radius_spec() <= RADIUS_LIMIT / 2,
            other.radius_spec() <= RADIUS_LIMIT / 2,
        ensures
            r.wf(),
            r.contains_spec(*self),
            r.contains_spec(*other),
            self.contains_spec(*other) ==> r == *self,
            !self.contains_spec(*other) && other.contains_spec(*self) ==> r == *other,
            !self.contains_spec(*other) && !other.contains_spec(*self) ==> r.center_spec() == merged_center(*self, *other)
                && r.radius_spec() == merged_radius(*self, *other),
    {
        proof {
            lemma_sphere_reflexive(*self);
            lemma_sphere_reflexive(*other);
        }
        if self.contains(other) {
            return *self;
        }
        if other.contains(self) {
            return *other;
        }
        let a = self.center;
        let b = other.center;
        let ra = self.radius;
        let rb = other.radius;
        let d = ceil_sqrt(sq_dist_exec(&a, &b));
        let f = d as i128 + rb as i128 - ra as i128;
        let den = 2 * (d as i128);
        proof {
            lemma_ceil_sqrt_unique(d as int, sq_dist(a, b));
            lemma_sq_dist_symmetric(a, b);
            if ra >= rb {
                if d <= ra - rb {
                    lemma_square_monotone(d as int, ra - rb);
                }
            } else {
                if d <= rb - ra {
                    lemma_square_monotone(d as int, rb - ra);
                }
            }
        }
        let c = Pnt3 {
            x: a.x + axis_offset(b.x - a.x, f, den),
            y: a.y + axis_offset(b.y - a.y, f, den),
            z: a.z + axis_offset(b.z - a.z, f, den),
        };
        let sa = ceil_sqrt(sq_dist_exec(&c, &a));
        let sb = ceil_sqrt(sq_dist_exec(&c, &b));
        let radius = if sa as i64 + ra >= sb as i64 + rb { sa as i64 + ra } else { sb as i64 + rb };
        let r = BoundingSphere { center: c, radius };
        proof {
            lemma_ceil_sqrt_unique(sa as int, sq_dist(c, a));
            lemma_ceil_sqrt_unique(sb as int, sq_dist(c, b));
            lemma_sq_dist_symmetric(c, a);
            lemma_sq_dist_symmetric(c, b);
            lemma_square_monotone(sa as int, r.radius - ra);
            lemma_square_monotone(sb as int, r.radius - rb);
        }
        r
    }

    /// Grows this ball to one holding both; see `merged`.
    pub fn merge(&mut self, other: &BoundingSphere)
        requires
            old(self).wf(),
            other.wf(),
            old(self).radius_spec() <= RADIUS_LIMIT / 2,
            other.radius_spec() <= RADIUS_LIMIT / 2,
        ensures
            final(self).wf(),
            final(self).contains_spec(*old(self)),
            final(self).contains_spec(*other),
            old(self).contains_spec(*other) ==> *final(self) == *old(self),
            !old(self).contains_spec(*other) && other.contains_spec(*old(self)) ==> *final(self) == *other,
            !old(self).contains_spec(*other) && !other.contains_spec(*old(self)) ==> final(self).center_spec()
                == merged_center(*old(self), *other) && final(self).radius_spec() == merged_radius(*old(self), *other),
    {
        *self = self.merged(other);
    }
}

/// Every ball contains and meets itself.
pub proof fn lemma_sphere_reflexive(a: BoundingSphere)
    requires
        a.wf(),
    ensures
        a.contains_spec(a),
        a.intersects_spec(a),
{
    lemma_sq_dist_symmetric(a.center_spec(), a.center_spec());
    assert(sq(a.radius_spec() - a.radius_spec()) == 0);
    assert(sq(a.radius_spec() + a.radius_spec()) >= 0) by (nonlinear_arith);
}

/// Whether two balls meet does not depend on their order.
pub proof fn lemma_sphere_intersects_symmetric(a: BoundingSphere, b: BoundingSphere)
    ensures
        a.intersects_spec(b) == b.intersects_spec(a),
{
    lemma_sq_dist_symmetric(a.center_spec(), b.center_spec());
}

/// A ball that contains another one meets it.
pub proof fn lemma_sphere_contains_intersects(a: BoundingSphere, b: BoundingSphere)
    requires
        a.wf(),
        b.wf(),
        a.contains_spec(b),
    ensures
        a.intersects_spec(b),
{
    let x = a.radius_spec() - b.radius_spec();
    let y = a.radius_spec() + b.radius_spec();
    lemma_square_monotone(x, y);
}

proof fn lemma_square_of_cross(a: int, b: int, c: int, d: int)
    ensures
        (a * b - c * d) * (a * b - c * d) == (a * a) * (b * b) - 2 * ((a * d) * (c * b)) + (c * c) * (d * d),
{
    let m = a * b;
    let n = c * d;
    assert((m - n) * (m - n) == m * m - 2 * (m * n) + n * n) by (nonlinear_arith);
    assert(m * m == (a * a) * (b * b)) by (nonlinear_arith) requires m == a * b;
    assert(n * n == (c * c) * (d * d)) by (nonlinear_arith) requires n == c * d;
    assert(m * n == (a * d) * (c * b)) by (nonlinear_arith) requires m == a * b, n == c * d;
}

proof fn lemma_dot_bound(u0: int, u1: int, u2: int, v0: int, v1: int, v2: int, x: int, y: int)
    requires
        0 <= x,
        0 <= y,
        u0 * u0 + u1 * u1 + u2 * u2 <= x * x,
        v0 * v0 + v1 * v1 + v2 * v2 <= y * y,
    ensures
        (u0 + v0) * (u0 + v0) + (u1 + v1) * (u1 + v1) + (u2 + v2) * (u2 + v2) <= (x + y) * (x + y),
{
    let uu = u0 * u0 + u1 * u1 + u2 * u2;
    let vv = v0 * v0 + v1 * v1 + v2 * v2;
    let uv = u0 * v0 + u1 * v1 + u2 * v2;
    let p = u0 * v1 - u1 * v0;
    let q = u0 * v2 - u2 * v0;
    let t = u1 * v2 - u2 * v1;
    let (a0, a1, a2, b0, b1, b2) = (u0 * u0, u1 * u1, u2 * u2, v0 * v0, v1 * v1, v2 * v2);
    lemma_square_of_cross(u0, v1, u1, v0);
    lemma_square_of_cross(u0, v2, u2, v0);
    lemma_square_of_cross(u1, v2, u2, v1);
    assert(uu * vv == a0 * b0 + a0 * b1 + a0 * b2 + a1 * b0 + a1 * b1 + a1 * b2 + a2 * b0 + a2 * b1 + a2 * b2) by (nonlinear_arith)
        requires uu == a0 + a1 + a2, vv == b0 + b1 + b2;
    let (w0, w1, w2) = (u0 * v0, u1 * v1, u2 * v2);
    assert(uv * uv == w0 * w0 + w1 * w1 + w2 * w2 + 2 * (w0 * w1) + 2 * (w0 * w2) + 2 * (w1 * w2)) by (nonlinear_arith)
        requires uv == w0 + w1 + w2;
    assert(w0 * w0 == a0 * b0) by (nonlinear_arith) requires w0 == u0 * v0, a0 == u0 * u0, b0 == v0 * v0;
    assert(w1 * w1 == a1 * b1) by (nonlinear_arith) requires w1 == u1 * v1, a1 == u1 * u1, b1 == v1 * v1;
    assert(w2 * w2 == a2 * b2) by (nonlinear_arith) requires w2 == u2 * v2, a2 == u2 * u2, b2 == v2 * v2;
    assert(uu * vv - uv * uv == p * p + q * q + t * t);
    assert(p * p >= 0 && q * q >= 0 && t * t >= 0) by (nonlinear_arith);
    assert(uu >= 0 && vv >= 0) by (nonlinear_arith)
        requires uu == u0 * u0 + u1 * u1 + u2 * u2, vv == v0 * v0 + v1 * v1 + v2 * v2;
    assert(uu * vv <= (x * x) * (y * y)) by (nonlinear_arith)
        requires 0 <= uu <= x * x, 0 <= vv <= y * y;
    assert((x * y) * (x * y) == (x * x) * (y * y)) by (nonlinear_arith);
    if uv > x * y {
        assert(uv * uv > (x * y) * (x * y)) by (nonlinear_arith) requires uv > x * y, x * y >= 0;
    }
    assert(x * y >= 0) by (nonlinear_arith) requires x >= 0, y >= 0;
    assert((u0 + v0) * (u0 + v0) + (u1 + v1) * (u1 + v1) + (u2 + v2) * (u2 + v2) == uu + vv + 2 * uv) by (nonlinear_arith)
        requires uu == u0 * u0 + u1 * u1 + u2 * u2, vv == v0 * v0 + v1 * v1 + v2 * v2, uv == u0 * v0 + u1 * v1 + u2 * v2;
    assert((x + y) * (x + y) == x * x + y * y + 2 * (x * y)) by (nonlinear_arith);
}

/// Containment of balls is transitive.
pub proof fn lemma_sphere_contains_transitive(a: BoundingSphere, b: BoundingSphere, c: BoundingSphere)
    requires
        a.contains_spec(b),
        b.contains_spec(c),
    ensures
        a.contains_spec(c),
{
    let (pa, pb, pc) = (a.center_spec(), b.center_spec(), c.center_spec());
    lemma_dot_bound(
        pb.x - pa.x, pb.y - pa.y, pb.z - pa.z,
        pc.x - pb.x, pc.y - pb.y, pc.z - pb.z,
        a.radius_spec() - b.radius_spec(), b.radius_spec() - c.radius_spec(),
    );
}

/// Loosening by a non-negative amount gives a ball containing the given one;
/// loosening by zero gives the same ball back.
pub proof fn lemma_sphere_loosened_contains(a: BoundingSphere, k: int)
    requires
        a.wf(),
        0 <= k,
        a.radius_spec() + k <= RADIUS_LIMIT,
    ensures
        a.loosened_spec(k).contains_spec(a),
        a.loosened_spec(0) == a,
{
    lemma_sq_dist_symmetric(a.center_spec(), a.center_spec());
    assert(sq(k) >= 0) by (nonlinear_arith);
}

} // verus!
