//! Rays and their intersection with axis-aligned boxes.

use vstd::prelude::*;
use crate::aabb::{tree_limit, Aabb};
use crate::math::{Pnt3, Vec3, COORD_LIMIT};

verus! {

/// A half-line from `origin` along `dir`.
#[derive(Clone, Copy, Debug, PartialEq, Eq, Structural)]
pub struct Ray {
    pub origin: Pnt3,
    pub dir: Vec3,
}

/// On one axis, the point `o + (n / m) d` lies in `[lo, hi]` (with `m > 0`).
pub open spec fn axis_ok(m: int, n: int, o: int, d: int, lo: int, hi: int) -> bool {
    m * lo <= m * o + n * d <= m * hi
}

/// The point of the ray at parameter `n / m` lies in the box.
pub open spec fn hits_at(r: Ray, b: Aabb, n: int, m: int) -> bool {
    &&& m > 0
    &&& n >= 0
    &&& axis_ok(m, n, r.origin.x as int, r.dir.x as int, b.mins.x as int, b.maxs.x as int)
    &&& axis_ok(m, n, r.origin.y as int, r.dir.y as int, b.mins.y as int, b.maxs.y as int)
    &&& axis_ok(m, n, r.origin.z as int, r.dir.z as int, b.mins.z as int, b.maxs.z as int)
}

/// Some point of the ray, at a rational parameter, lies in the box.
pub open spec fn ray_hits(r: Ray, b: Aabb) -> bool {
    exists|n: int, m: int| #[trigger] hits_at(r, b, n, m)
}

impl Ray {
    /// Origin and direction within the coordinate limit.
    pub open spec fn wf(self) -> bool {
        self.origin.bounded(COORD_LIMIT as int) && self.dir.bounded(COORD_LIMIT as int)
    }

    pub fn new(origin: Pnt3, dir: Vec3) -> (r: Ray)
        ensures
            r == (Ray { origin, dir }),
    {
        Ray { origin, dir }
    }
}

/// A ray that meets a box meets every box containing it.
pub proof fn lemma_ray_hits_grow(r: Ray, inner: Aabb, outer: Aabb)
    requires
        outer.contains_spec(inner),
        ray_hits(r, inner),
    ensures
        ray_hits(r, outer),
{
    let (n, m) = choose|n: int, m: int| #[trigger] hits_at(r, inner, n, m);
    assert(m * outer.mins.x <= m * inner.mins.x) by (nonlinear_arith) requires m > 0, outer.mins.x <= inner.mins.x;
    assert(m * outer.mins.y <= m * inner.mins.y) by (nonlinear_arith) requires m > 0, outer.mins.y <= inner.mins.y;
    assert(m * outer.mins.z <= m * inner.mins.z) by (nonlinear_arith) requires m > 0, outer.mins.z <= inner.mins.z;
    assert(m * inner.maxs.x <= m * outer.maxs.x) by (nonlinear_arith) requires m > 0, inner.maxs.x <= outer.maxs.x;
    assert(m * inner.maxs.y <= m * outer.maxs.y) by (nonlinear_arith) requires m > 0, inner.maxs.y <= outer.maxs.y;
    assert(m * inner.maxs.z <= m * outer.maxs.z) by (nonlinear_arith) requires m > 0, inner.maxs.z <= outer.maxs.z;
    assert(hits_at(r, outer, n, m));
}

/// `a / b <= c / d` for positive `b` and `d`.
pub open spec fn frac_le(a: int, b: int, c: int, d: int) -> bool {
    a * d <= c * b
}

proof fn lemma_frac_trans(a: int, b: int, c: int, d: int, e: int, f: int)
    requires
        b > 0,
        d > 0,
        f > 0,
        frac_le(a, b, c, d),
        frac_le(c, d, e, f),
    ensures
        frac_le(a, b, e, f),
{
    assert(a * d * f <= c * b * f) by (nonlinear_arith) requires a * d <= c * b, f > 0;
    assert(c * f * b <= e * d * b) by (nonlinear_arith) requires c * f <= e * d, b > 0;
    assert(a * f * d <= e * b * d) by (nonlinear_arith) requires a * d * f <= c * b * f, c * f * b <= e * d * b;
    assert(a * f <= e * b) by (nonlinear_arith) requires a * f * d <= e * b * d, d > 0;
}

/// On an axis with `d != 0`, the parameters that keep the point within
/// `[lo, hi]` are those from `a / b` to `c / b`.
pub open spec fn axis_bounds(o: int, d: int, lo: int, hi: int) -> (int, int, int) {
    if d > 0 {
        (lo - o, d, hi - o)
    } else {
        (o - hi, -d, o - lo)
    }
}

proof fn lemma_axis_bounds(m: int, n: int, o: int, d: int, lo: int, hi: int)
    requires
        m > 0,
        d != 0,
    ensures
        ({
            let (a, b, c) = axis_bounds(o, d, lo, hi);
            b > 0 && (axis_ok(m, n, o, d, lo, hi) <==> (frac_le(a, b, n, m) && frac_le(n, m, c, b)))
        }),
{
    if d > 0 {
        assert(m * lo <= m * o + n * d <==> (lo - o) * m <= n * d) by (nonlinear_arith);
        assert(m * o + n * d <= m * hi <==> n * d <= (hi - o) * m) by (nonlinear_arith);
    } else {
        assert(m * lo <= m * o + n * d <==> n * (-d) <= (o - lo) * m) by (nonlinear_arith);
        assert(m * o + n * d <= m * hi <==> (o - hi) * m <= n * (-d)) by (nonlinear_arith);
    }
}

proof fn lemma_axis_flat(m: int, n: int, o: int, lo: int, hi: int)
    requires
        m > 0,
    ensures
        axis_ok(m, n, o, 0, lo, hi) <==> lo <= o <= hi,
{
    assert(m * lo <= m * o + n * 0 <==> lo <= o) by (nonlinear_arith) requires m > 0;
    assert(m * o + n * 0 <= m * hi <==> o <= hi) by (nonlinear_arith) requires m > 0;
}

/// A parameter bound standing for "no bound": above every lower bound of a
/// ray within the coordinate limit against a box within the tree's limit.
pub open spec fn no_bound() -> int {
    0x1000_0000_0000
}

/// The lower bound of the parameter on one axis (0 for an axis the ray runs along).
pub open spec fn lower_of(o: int, d: int, lo: int, hi: int) -> (int, int) {
    if d == 0 {
        (0, 1)
    } else {
        let (a, b, c) = axis_bounds(o, d, lo, hi);
        (a, b)
    }
}

/// The upper bound of the parameter on one axis (`no_bound()` for an axis the ray runs along).
pub open spec fn upper_of(o: int, d: int, lo: int, hi: int) -> (int, int) {
    if d == 0 {
        (no_bound(), 1)
    } else {
        let (a, b, c) = axis_bounds(o, d, lo, hi);
        (c, b)
    }
}

pub open spec fn within_bound(f: (int, int)) -> bool {
    f.1 > 0 && -no_bound() < f.0 < no_bound() && f.1 < no_bound()
}

fn axis_fracs(o: i64, d: i64, lo: i64, hi: i64) -> (r: ((i128, i128), (i128, i128)))
    requires
        -COORD_LIMIT <= o <= COORD_LIMIT,
        -COORD_LIMIT <= d <= COORD_LIMIT,
        -tree_limit() <= lo <= tree_limit(),
        -tree_limit() <= hi <= tree_limit(),
    ensures
        r.0.0 == lower_of(o as int, d as int, lo as int, hi as int).0,
        r.0.1 == lower_of(o as int, d as int, lo as int, hi as int).1,
        r.1.0 == upper_of(o as int, d as int, lo as int, hi as int).0,
        r.1.1 == upper_of(o as int, d as int, lo as int, hi as int).1,
        within_bound((r.0.0 as int, r.0.1 as int)),
        r.1.1 > 0,
        r.1.1 < no_bound(),
        -no_bound() < r.1.0 <= no_bound(),
{
    let (o, d, lo, hi) = (o as i128, d as i128, lo as i128, hi as i128);
    if d == 0 {
        ((0, 1), (0x1000_0000_0000, 1))
    } else if d > 0 {
        ((lo - o, d), (hi - o, d))
    } else {
        ((o - hi, -d), (o - lo, -d))
    }
}

pub open spec fn bounded_frac(f: (int, int)) -> bool {
    0 < f.1 < no_bound() && -no_bound() < f.0 <= no_bound()
}

fn frac_le_exec(x: (i128, i128), y: (i128, i128)) -> (r: bool)
    requires
        bounded_frac((x.0 as int, x.1 as int)),
        y.1 > 0,
        y.1 < no_bound(),
        -no_bound() < y.0 <= no_bound(),
    ensures
        r == frac_le(x.0 as int, x.1 as int, y.0 as int, y.1 as int),
{
    proof {
        assert(-0x100_0000_0000_0000_0000_0000int <= x.0 * y.1 <= 0x100_0000_0000_0000_0000_0000int) by (nonlinear_arith)
            requires -no_bound() < x.0 <= no_bound(), 0 < y.1 < no_bound();
        assert(-0x100_0000_0000_0000_0000_0000int <= y.0 * x.1 <= 0x100_0000_0000_0000_0000_0000int) by (nonlinear_arith)
            requires -no_bound() < y.0 <= no_bound(), 0 < x.1 < no_bound();
    }
    x.0 * y.1 <= y.0 * x.1
}

proof fn lemma_witness_axis(n: int, m: int, o: int, d: int, lo: int, hi: int, un: int, ud: int)
    requires
        m > 0,
        ud > 0,
        frac_le(lower_of(o, d, lo, hi).0, lower_of(o, d, lo, hi).1, n, m),
        frac_le(n, m, un, ud),
        frac_le(un, ud, upper_of(o, d, lo, hi).0, upper_of(o, d, lo, hi).1),
        d == 0 ==> lo <= o <= hi,
    ensures
        axis_ok(m, n, o, d, lo, hi),
{
    if d == 0 {
        lemma_axis_flat(m, n, o, lo, hi);
    } else {
        lemma_axis_bounds(m, n, o, d, lo, hi);
        let (a, bb, c) = axis_bounds(o, d, lo, hi);
        lemma_frac_trans(n, m, un, ud, c, bb);
    }
}

/// When the ray meets the box at `n / m`, a bound `ln / ld` below `n / m`
/// is below the axis's upper bound, and the axis's lower bound is below `n / m`.
proof fn lemma_hit_axis(n: int, m: int, o: int, d: int, lo: int, hi: int, ln: int, ld: int)
    requires
        m > 0,
        n >= 0,
        axis_ok(m, n, o, d, lo, hi),
        within_bound((ln, ld)),
    ensures
        d == 0 ==> lo <= o <= hi,
        frac_le(lower_of(o, d, lo, hi).0, lower_of(o, d, lo, hi).1, n, m),
        frac_le(ln, ld, n, m) ==> frac_le(ln, ld, upper_of(o, d, lo, hi).0, upper_of(o, d, lo, hi).1),
{
    if d == 0 {
        lemma_axis_flat(m, n, o, lo, hi);
        assert(ln * 1 <= no_bound() * ld) by (nonlinear_arith)
            requires ln < no_bound(), ld >= 1;
    } else {
        lemma_axis_bounds(m, n, o, d, lo, hi);
        let (a, bb, c) = axis_bounds(o, d, lo, hi);
        if frac_le(ln, ld, n, m) {
            lemma_frac_trans(ln, ld, n, m, c, bb);
        }
    }
}

/// Whether some point of the ray lies in the box: the largest lower bound of
/// the parameter over the axes (and zero) is at most the smallest upper bound.
pub fn ray_intersects_aabb(ray: &Ray, b: &Aabb) -> (r: bool)
    requires
        ray.wf(),
        b.bounded(tree_limit()),
    ensures
        r == ray_hits(*ray, *b),
{
    let o = ray.origin;
    let d = ray.dir;
    let (lx, ux) = axis_fracs(o.x, d.x, b.mins.x, b.maxs.x);
    let (ly, uy) = axis_fracs(o.y, d.y, b.mins.y, b.maxs.y);
    let (lz, uz) = axis_fracs(o.z, d.z, b.mins.z, b.maxs.z);
    let flat_ok = (d.x != 0 || (b.mins.x <= o.x && o.x <= b.maxs.x))
        && (d.y != 0 || (b.mins.y <= o.y && o.y <= b.maxs.y))
        && (d.z != 0 || (b.mins.z <= o.z && o.z <= b.maxs.z));
    let zero: (i128, i128) = (0, 1);
    let m1 = if frac_le_exec(lx, zero) { zero } else { lx };
    let m2 = if frac_le_exec(ly, m1) { m1 } else { ly };
    let lmax = if frac_le_exec(lz, m2) { m2 } else { lz };
    let n1 = if frac_le_exec(ux, uy) { ux } else { uy };
    let umin = if frac_le_exec(n1, uz) { n1 } else { uz };
    let r = flat_ok && frac_le_exec(lmax, umin);
    proof {
        let (ox, oy, oz) = (o.x as int, o.y as int, o.z as int);
        let (dx, dy, dz) = (d.x as int, d.y as int, d.z as int);
        lemma_frac_trans(0, 1, m1.0 as int, m1.1 as int, m2.0 as int, m2.1 as int);
        lemma_frac_trans(0, 1, m2.0 as int, m2.1 as int, lmax.0 as int, lmax.1 as int);
        lemma_frac_trans(lx.0 as int, lx.1 as int, m1.0 as int, m1.1 as int, m2.0 as int, m2.1 as int);
        lemma_frac_trans(lx.0 as int, lx.1 as int, m2.0 as int, m2.1 as int, lmax.0 as int, lmax.1 as int);
        lemma_frac_trans(ly.0 as int, ly.1 as int, m2.0 as int, m2.1 as int, lmax.0 as int, lmax.1 as int);
        lemma_frac_trans(umin.0 as int, umin.1 as int, n1.0 as int, n1.1 as int, ux.0 as int, ux.1 as int);
        lemma_frac_trans(umin.0 as int, umin.1 as int, n1.0 as int, n1.1 as int, uy.0 as int, uy.1 as int);
        let (ln, ld) = (lmax.0 as int, lmax.1 as int);
        let (un, ud) = (umin.0 as int, umin.1 as int);
        if r {
            lemma_witness_axis(ln, ld, ox, dx, b.mins.x as int, b.maxs.x as int, un, ud);
            lemma_witness_axis(ln, ld, oy, dy, b.mins.y as int, b.maxs.y as int, un, ud);
            lemma_witness_axis(ln, ld, oz, dz, b.mins.z as int, b.maxs.z as int, un, ud);
            assert(hits_at(*ray, *b, ln, ld));
        }
        if ray_hits(*ray, *b) {
            let (n, m) = choose|n: int, m: int| #[trigger] hits_at(*ray, *b, n, m);
            lemma_hit_axis(n, m, ox, dx, b.mins.x as int, b.maxs.x as int, ln, ld);
            lemma_hit_axis(n, m, oy, dy, b.mins.y as int, b.maxs.y as int, ln, ld);
            lemma_hit_axis(n, m, oz, dz, b.mins.z as int, b.maxs.z as int, ln, ld);
            assert(frac_le(ln, ld, un, ud));
        }
    }
    r
}

} // verus!
