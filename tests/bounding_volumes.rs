use ncollide::aabb::{Aabb, Cuboid};
use ncollide::bounding_sphere::BoundingSphere;
use ncollide::math::{Iso3, Pnt3, Vec3};

fn cube(x: i64, y: i64, z: i64, h: i64) -> Aabb {
    Aabb::new(Pnt3::new(x - h, y - h, z - h), Pnt3::new(x + h, y + h, z + h))
}

#[test]
fn aabb_reflexive_contains_and_intersects() {
    let a = cube(3, -4, 5, 2);
    assert!(a.contains(&a));
    assert!(a.intersects(&a));
}

#[test]
fn aabb_intersects_symmetric() {
    let a = cube(0, 0, 0, 2);
    let b = cube(3, 0, 0, 2);
    let c = cube(10, 0, 0, 2);
    assert!(a.intersects(&b) && b.intersects(&a));
    assert!(!a.intersects(&c) && !c.intersects(&a));
}

#[test]
fn aabb_touching_faces_intersect() {
    let a = Aabb::new(Pnt3::new(0, 0, 0), Pnt3::new(1, 1, 1));
    let b = Aabb::new(Pnt3::new(1, 0, 0), Pnt3::new(2, 1, 1));
    assert!(a.intersects(&b));
    assert!(!a.contains(&b));
}

#[test]
fn aabb_merged_is_tightest_and_contains_both() {
    let a = Aabb::new(Pnt3::new(0, 1, 2), Pnt3::new(3, 4, 5));
    let b = Aabb::new(Pnt3::new(-1, 2, 0), Pnt3::new(2, 6, 4));
    let m = a.merged(&b);
    assert_eq!(m.mins(), Pnt3::new(-1, 1, 0));
    assert_eq!(m.maxs(), Pnt3::new(3, 6, 5));
    assert!(m.contains(&a) && m.contains(&b));
    let mut c = a;
    c.merge(&b);
    assert_eq!(c, m);
}

#[test]
fn aabb_loosened_contains_input() {
    let a = Aabb::new(Pnt3::new(0, 1, 2), Pnt3::new(3, 4, 5));
    let l = a.loosened(2);
    assert_eq!(l.mins(), Pnt3::new(-2, -1, 0));
    assert_eq!(l.maxs(), Pnt3::new(5, 6, 7));
    assert!(l.contains(&a));
    assert!(!a.contains(&l));
    assert_eq!(a.loosened(0), a);
    let mut b = a;
    b.loosen(2);
    assert_eq!(b, l);
}

#[test]
fn aabb_contains_point() {
    let a = cube(0, 0, 0, 1);
    assert!(a.contains_point(&Pnt3::new(1, -1, 0)));
    assert!(!a.contains_point(&Pnt3::new(2, 0, 0)));
}

#[test]
fn aabb_volume_and_translation() {
    let a = Aabb::new(Pnt3::new(0, 0, 0), Pnt3::new(2, 3, 4));
    assert_eq!(a.volume(), 24);
    let t = a.translated(&Vec3::new(1, -1, 2));
    assert_eq!(t.mins(), Pnt3::new(1, -1, 2));
    assert_eq!(t.maxs(), Pnt3::new(3, 2, 6));
}

#[test]
fn cuboid_aabb_under_rotation() {
    let c = Cuboid::new(Vec3::new(1, 2, 3));
    let id = c.aabb(&Iso3::identity());
    assert_eq!(id.mins(), Pnt3::new(-1, -2, -3));
    assert_eq!(id.maxs(), Pnt3::new(1, 2, 3));
    let rz = Iso3::new(Vec3::new(0, -1, 0), Vec3::new(1, 0, 0), Vec3::new(0, 0, 1), Vec3::new(0, 0, 0));
    let r = c.aabb(&rz);
    assert_eq!(r.mins(), Pnt3::new(-2, -1, -3));
    assert_eq!(r.maxs(), Pnt3::new(2, 1, 3));
}

#[test]
fn cuboid_aabb_translated() {
    let c = Cuboid::new(Vec3::new(1, 1, 1));
    let m = Iso3::new(Vec3::new(1, 0, 0), Vec3::new(0, 1, 0), Vec3::new(0, 0, 1), Vec3::new(5, 6, 7));
    let r = c.aabb(&m);
    assert_eq!(r.mins(), Pnt3::new(4, 5, 6));
    assert_eq!(r.maxs(), Pnt3::new(6, 7, 8));
}

#[test]
fn sphere_accessors_and_transform() {
    let s = BoundingSphere::new(Pnt3::new(1, 2, 3), 4);
    assert_eq!(*s.center(), Pnt3::new(1, 2, 3));
    assert_eq!(s.radius(), 4);
    let m = Iso3::new(Vec3::new(0, -1, 0), Vec3::new(1, 0, 0), Vec3::new(0, 0, 1), Vec3::new(10, 0, 0));
    let t = s.transform_by(&m);
    assert_eq!(*t.center(), Pnt3::new(8, 1, 3));
    assert_eq!(t.radius(), 4);
}

#[test]
fn sphere_intersects_and_contains() {
    let a = BoundingSphere::new(Pnt3::new(0, 0, 0), 10);
    let b = BoundingSphere::new(Pnt3::new(15, 0, 0), 10);
    let c = BoundingSphere::new(Pnt3::new(30, 0, 0), 10);
    let d = BoundingSphere::new(Pnt3::new(3, 4, 0), 5);
    assert!(a.intersects(&b) && b.intersects(&a));
    assert!(!a.intersects(&c));
    assert!(a.intersects(&a) && a.contains(&a));
    assert!(a.contains(&d));
    assert!(!d.contains(&a));
    let e = BoundingSphere::new(Pnt3::new(3, 4, 0), 6);
    assert!(!a.contains(&e));
}

#[test]
fn sphere_merge_coincident_centers_takes_larger_radius() {
    let a = BoundingSphere::new(Pnt3::new(0, 0, 0), 1);
    let b = BoundingSphere::new(Pnt3::new(0, 0, 0), 2);
    let m = a.merged(&b);
    assert_eq!(*m.center(), Pnt3::new(0, 0, 0));
    assert_eq!(m.radius(), 2);
    let mut c = b;
    c.merge(&a);
    assert_eq!(c.radius(), 2);
}

#[test]
fn sphere_merge_disjoint() {
    let a = BoundingSphere::new(Pnt3::new(0, 0, 0), 1);
    let b = BoundingSphere::new(Pnt3::new(10, 0, 0), 1);
    let m = a.merged(&b);
    assert_eq!(*m.center(), Pnt3::new(5, 0, 0));
    assert_eq!(m.radius(), 6);
    assert!(m.contains(&a) && m.contains(&b));
}

#[test]
fn sphere_merge_rounds_radius_up() {
    let a = BoundingSphere::new(Pnt3::new(0, 0, 0), 0);
    let b = BoundingSphere::new(Pnt3::new(2, 2, 0), 0);
    let m = a.merged(&b);
    assert_eq!(*m.center(), Pnt3::new(1, 1, 0));
    assert_eq!(m.radius(), 2);
    assert!(m.contains(&a) && m.contains(&b));
}

#[test]
fn sphere_loosened_and_translation() {
    let a = BoundingSphere::new(Pnt3::new(1, 2, 3), 4);
    let l = a.loosened(3);
    assert_eq!(l.radius(), 7);
    assert!(l.contains(&a));
    assert_eq!(a.loosened(0), a);
    let mut b = a;
    b.loosen(3);
    assert_eq!(b, l);
    assert_eq!(a.translation(), Vec3::new(1, 2, 3));
    assert_eq!(a.inv_translation(), Vec3::new(-1, -2, -3));
    let t = a.append_translation_cpy(&Vec3::new(1, 1, 1));
    assert_eq!(*t.center(), Pnt3::new(2, 3, 4));
    let mut u = a;
    u.append_translation(&Vec3::new(1, 1, 1));
    assert_eq!(u, t);
    u.set_translation(Vec3::new(0, 0, 0));
    assert_eq!(*u.center(), Pnt3::new(0, 0, 0));
    assert_eq!(u.radius(), 4);
}

#[test]
fn sphere_merge_of_contained_keeps_self() {
    let a = BoundingSphere::new(Pnt3::new(0, 0, 0), 10);
    let b = BoundingSphere::new(Pnt3::new(3, 0, 0), 2);
    let mut m = a;
    m.merge(&b);
    assert_eq!(m, a);
}

#[test]
fn sphere_prepend_translation() {
    let a = BoundingSphere::new(Pnt3::new(1, 2, 3), 4);
    let t = a.prepend_translation_cpy(&Vec3::new(-1, 0, 2));
    assert_eq!(*t.center(), Pnt3::new(0, 2, 5));
    let mut u = a;
    u.prepend_translation(&Vec3::new(-1, 0, 2));
    assert_eq!(u, t);
}

#[test]
fn sphere_merge_along_axis() {
    let a = BoundingSphere::new(Pnt3::new(0, 0, 0), 1);
    let b = BoundingSphere::new(Pnt3::new(10, 0, 0), 5);
    let m = a.merged(&b);
    assert_eq!(*m.center(), Pnt3::new(7, 0, 0));
    assert_eq!(m.radius(), 8);
    assert!(m.contains(&a) && m.contains(&b));
}

#[test]
fn sphere_contains_is_transitive_on_example() {
    let a = BoundingSphere::new(Pnt3::new(0, 0, 0), 10);
    let b = BoundingSphere::new(Pnt3::new(3, 0, 0), 6);
    let c = BoundingSphere::new(Pnt3::new(3, 4, 0), 1);
    assert!(a.contains(&b) && b.contains(&c) && a.contains(&c));
}
