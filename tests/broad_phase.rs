use ncollide::aabb::Aabb;
use ncollide::dbvt::Dbvt;
use ncollide::dbvt_broad_phase::{DBVTBroadPhase, Dispatcher};
use ncollide::math::{Pnt3, Vec3};
use ncollide::ray::{ray_intersects_aabb, Ray};
use ncollide::pair_manager::{Pair, PairManager, PairReader, PairVisitor};

fn cube(x: i64, y: i64, z: i64, h: i64) -> Aabb {
    Aabb::new(Pnt3::new(x - h, y - h, z - h), Pnt3::new(x + h, y + h, z + h))
}

struct AcceptAll {
    made: u32,
    log: Vec<(u64, u64)>,
}

impl Dispatcher<u32> for AcceptAll {
    fn calls(&self) -> Vec<(u64, u64)> {
        self.log.clone()
    }

    fn accepts(&self, a: u64, b: u64) -> bool {
        self.is_valid(a, b)
    }

    fn accepts_symmetric(&self, _a: u64, _b: u64) {}

    fn is_valid(&self, _a: u64, _b: u64) -> bool {
        true
    }

    fn dispatch(&mut self, a: u64, b: u64) -> u32 {
        self.log.push((a, b));
        self.made += 1;
        self.made
    }
}

struct Parity {
    made: u32,
    log: Vec<(u64, u64)>,
}

impl Dispatcher<u32> for Parity {
    fn calls(&self) -> Vec<(u64, u64)> {
        self.log.clone()
    }

    fn accepts(&self, a: u64, b: u64) -> bool {
        self.is_valid(a, b)
    }

    fn accepts_symmetric(&self, _a: u64, _b: u64) {}

    fn is_valid(&self, a: u64, b: u64) -> bool {
        a % 2 != b % 2
    }

    fn dispatch(&mut self, a: u64, b: u64) -> u32 {
        self.log.push((a, b));
        self.made += 1;
        self.made
    }
}

struct Recorder {
    seen: Vec<(u64, u64, u32)>,
}

impl PairVisitor<u32> for Recorder {
    fn seen(&self) -> Vec<(u64, u64)> {
        self.seen.iter().map(|t| (t.0, t.1)).collect()
    }

    fn visit(&mut self, a: u64, b: u64, data: &mut u32) {
        self.seen.push((a, b, *data));
    }
}

struct Bump {
    log: Vec<(u64, u64)>,
}

impl PairVisitor<u32> for Bump {
    fn seen(&self) -> Vec<(u64, u64)> {
        self.log.clone()
    }

    fn visit(&mut self, a: u64, b: u64, data: &mut u32) {
        self.log.push((a, b));
        *data += 100;
    }
}

struct Collect {
    seen: Vec<(u64, u64, u32)>,
}

impl PairReader<u32> for Collect {
    fn seen(&self) -> Vec<(u64, u64)> {
        self.seen.iter().map(|t| (t.0, t.1)).collect()
    }

    fn read(&mut self, a: u64, b: u64, data: &u32) {
        self.seen.push((a, b, *data));
    }
}

fn sorted(mut v: Vec<u64>) -> Vec<u64> {
    v.sort();
    v
}

#[test]
fn pair_is_unordered() {
    assert_eq!(Pair::new(3, 1), Pair::new(1, 3));
    assert_eq!(Pair::new(3, 1).first, 1);
}

#[test]
fn pair_manager_insert_find_remove() {
    let mut pm: PairManager<u32> = PairManager::new();
    pm.insert(Pair::new(1, 2), 10);
    pm.insert(Pair::new(2, 3), 20);
    pm.insert(Pair::new(1, 3), 30);
    assert_eq!(pm.len(), 3);
    assert!(pm.contains(&Pair::new(2, 1)));
    let e = pm.get_and_remove(&Pair::new(3, 2)).unwrap();
    assert_eq!(e.value, 20);
    assert!(!pm.contains(&Pair::new(2, 3)));
    assert!(pm.get_and_remove(&Pair::new(2, 3)).is_none());
    pm.remove_involving(1);
    assert_eq!(pm.len(), 0);
}

#[test]
fn dbvt_insert_remove_and_query() {
    let mut t = Dbvt::new();
    assert!(t.is_empty());
    t.insert(1, cube(0, 0, 0, 1));
    t.insert(2, cube(10, 0, 0, 1));
    t.insert(3, cube(1, 1, 0, 1));
    t.insert(4, cube(-20, 0, 0, 1));
    let mut out = Vec::new();
    t.interferences_with_leaf(1, &cube(0, 0, 0, 1), &mut out);
    assert_eq!(sorted(out), vec![3]);
    let mut out = Vec::new();
    t.interferences_with_bounding_volume(&cube(5, 0, 0, 5), &mut out);
    assert_eq!(sorted(out), vec![1, 2, 3]);
    let mut out = Vec::new();
    t.interferences_with_point(&Pnt3::new(-20, 1, 1), &mut out);
    assert_eq!(out, vec![4]);
    t.remove(3, &cube(1, 1, 0, 1));
    let mut out = Vec::new();
    t.interferences_with_bounding_volume(&cube(5, 0, 0, 5), &mut out);
    assert_eq!(sorted(out), vec![1, 2]);
    t.remove(1, &cube(0, 0, 0, 1));
    t.remove(2, &cube(10, 0, 0, 1));
    t.remove(4, &cube(-20, 0, 0, 1));
    assert!(t.is_empty());
}

#[test]
fn empty_tree_query_has_no_hits() {
    let t = Dbvt::new();
    let mut out = vec![7];
    t.interferences_with_bounding_volume(&cube(0, 0, 0, 100), &mut out);
    assert_eq!(out, vec![7]);
}

#[test]
fn add_registers_overlapping_pair() {
    let mut bp = DBVTBroadPhase::new(AcceptAll { made: 0, log: Vec::new() }, 1);
    bp.add(1, cube(0, 0, 0, 10));
    bp.add(2, cube(15, 0, 0, 10));
    assert_eq!(bp.num_interferences(), 1);
    assert!(bp.has_pair(2, 1));
    assert_eq!(bp.pair_at(0).value, 1);
    assert_eq!(bp.dispatcher().made, 1);
}

#[test]
fn margin_makes_near_objects_pair() {
    let mut bp = DBVTBroadPhase::new(AcceptAll { made: 0, log: Vec::new() }, 1);
    bp.add(1, cube(0, 0, 0, 10));
    bp.add(2, cube(21, 0, 0, 10));
    assert!(bp.has_pair(1, 2));
    let mut bq = DBVTBroadPhase::new(AcceptAll { made: 0, log: Vec::new() }, 0);
    bq.add(1, cube(0, 0, 0, 10));
    bq.add(2, cube(21, 0, 0, 10));
    assert_eq!(bq.num_interferences(), 0);
}

#[test]
fn stale_pair_evicted_after_new_collision() {
    let mut bp = DBVTBroadPhase::new(AcceptAll { made: 0, log: Vec::new() }, 1);
    bp.add(1, cube(0, 0, 0, 10));
    bp.add(2, cube(15, 0, 0, 10));
    assert_eq!(bp.num_interferences(), 1);
    bp.update_object(2, cube(30, 0, 0, 10));
    assert!(bp.has_pair(1, 2));
    bp.add(3, cube(45, 0, 0, 10));
    assert!(!bp.has_pair(1, 2));
    assert!(bp.has_pair(2, 3));
    assert_eq!(bp.num_interferences(), 1);
}

#[test]
fn small_moves_inside_margin_change_nothing() {
    let mut bp = DBVTBroadPhase::new(AcceptAll { made: 0, log: Vec::new() }, 2);
    bp.add(1, cube(0, 0, 0, 10));
    bp.add(2, cube(40, 0, 0, 10));
    bp.update(&vec![(1, cube(1, 1, 0, 10)), (2, cube(39, 0, 1, 10))]);
    assert_eq!(bp.num_interferences(), 0);
    assert_eq!(bp.dispatcher().made, 0);
}

#[test]
fn update_finds_new_overlap() {
    let mut bp = DBVTBroadPhase::new(AcceptAll { made: 0, log: Vec::new() }, 1);
    bp.add(1, cube(0, 0, 0, 10));
    bp.add(2, cube(40, 0, 0, 10));
    assert_eq!(bp.num_interferences(), 0);
    bp.update(&vec![(2, cube(15, 0, 0, 10))]);
    assert!(bp.has_pair(1, 2));
    assert_eq!(bp.num_interferences(), 1);
}

#[test]
fn existing_pair_is_not_dispatched_again() {
    let mut bp = DBVTBroadPhase::new(AcceptAll { made: 0, log: Vec::new() }, 1);
    bp.add(1, cube(0, 0, 0, 10));
    bp.add(2, cube(15, 0, 0, 10));
    bp.update_object(2, cube(5, 0, 0, 10));
    assert_eq!(bp.num_interferences(), 1);
    assert_eq!(bp.dispatcher().made, 1);
}

#[test]
fn dispatcher_filter_by_parity() {
    let mut bp = DBVTBroadPhase::new(Parity { made: 0, log: Vec::new() }, 1);
    for u in 1..5u64 {
        bp.add(u, cube(u as i64, 0, 0, 10));
    }
    assert_eq!(bp.num_interferences(), 4);
    assert!(bp.has_pair(1, 2));
    assert!(bp.has_pair(1, 4));
    assert!(bp.has_pair(2, 3));
    assert!(bp.has_pair(3, 4));
    assert!(!bp.has_pair(1, 3));
    assert!(!bp.has_pair(2, 4));
}

#[test]
fn sleep_migration_and_wake() {
    let mut bp = DBVTBroadPhase::new(AcceptAll { made: 0, log: Vec::new() }, 1);
    bp.add(1, cube(0, 0, 0, 10));
    bp.add(2, cube(15, 0, 0, 10));
    bp.deactivate(1);
    assert_eq!(bp.num_interferences(), 1);
    bp.deactivate(2);
    assert_eq!(bp.num_interferences(), 0);
    assert!(bp.has_sleeping_pair(1, 2));
    let mut rec = Recorder { seen: Vec::new() };
    bp.activate(2, &mut rec);
    assert_eq!(bp.num_interferences(), 1);
    assert!(bp.has_pair(1, 2));
    assert!(!bp.has_sleeping_pair(1, 2));
    assert_eq!(rec.seen, vec![(1, 2, 1)]);
    assert_eq!(bp.dispatcher().made, 1);
}

#[test]
fn sleep_then_wake_keeps_pairs() {
    let mut bp = DBVTBroadPhase::new(AcceptAll { made: 0, log: Vec::new() }, 1);
    bp.add(1, cube(0, 0, 0, 10));
    bp.add(2, cube(15, 0, 0, 10));
    bp.add(3, cube(-15, 0, 0, 10));
    bp.deactivate(3);
    assert_eq!(bp.num_interferences(), 2);
    bp.deactivate(1);
    let mut rec = Recorder { seen: Vec::new() };
    bp.activate(1, &mut rec);
    assert_eq!(bp.num_interferences(), 2);
    assert!(bp.has_pair(1, 2));
    assert!(bp.has_pair(1, 3));
    assert_eq!(rec.seen.len(), 1);
}

#[test]
fn activate_and_deactivate_are_idempotent() {
    let mut bp = DBVTBroadPhase::new(AcceptAll { made: 0, log: Vec::new() }, 1);
    bp.add(1, cube(0, 0, 0, 10));
    bp.add(2, cube(15, 0, 0, 10));
    let mut rec = Recorder { seen: Vec::new() };
    bp.activate(1, &mut rec);
    assert!(rec.seen.is_empty());
    bp.deactivate(1);
    bp.deactivate(1);
    bp.deactivate(7);
    assert_eq!(bp.num_interferences(), 1);
}

#[test]
fn remove_purges_pairs() {
    let mut bp = DBVTBroadPhase::new(AcceptAll { made: 0, log: Vec::new() }, 1);
    bp.add(1, cube(0, 0, 0, 10));
    bp.add(2, cube(15, 0, 0, 10));
    bp.add(3, cube(-15, 0, 0, 10));
    bp.deactivate(2);
    bp.deactivate(1);
    assert!(bp.has_sleeping_pair(1, 2));
    bp.remove(1);
    assert!(!bp.has_pair(1, 2));
    assert!(!bp.has_pair(1, 3));
    assert!(!bp.has_sleeping_pair(1, 2));
    assert_eq!(bp.num_interferences(), 0);
    bp.remove(42);
    let mut out = Vec::new();
    bp.interferences_with_bounding_volume(&cube(0, 0, 0, 100), &mut out);
    assert_eq!(sorted(out), vec![2, 3]);
}

#[test]
fn queries_cover_both_trees_and_are_repeatable() {
    let mut bp = DBVTBroadPhase::new(AcceptAll { made: 0, log: Vec::new() }, 1);
    bp.add(1, cube(0, 0, 0, 1));
    bp.add(2, cube(10, 0, 0, 1));
    bp.add(3, cube(20, 0, 0, 1));
    bp.deactivate(3);
    let q = Aabb::new(Pnt3::new(-5, 0, 0), Pnt3::new(100, 0, 0));
    let mut a = Vec::new();
    bp.interferences_with_bounding_volume(&q, &mut a);
    let mut b = Vec::new();
    bp.interferences_with_bounding_volume(&q, &mut b);
    assert_eq!(sorted(a.clone()), vec![1, 2, 3]);
    assert_eq!(sorted(a), sorted(b));
    let mut p = Vec::new();
    bp.interferences_with_point(&Pnt3::new(20, 1, -1), &mut p);
    assert_eq!(p, vec![3]);
    let mut none = Vec::new();
    bp.interferences_with_point(&Pnt3::new(5, 0, 0), &mut none);
    assert!(none.is_empty());
}

#[test]
fn for_each_pair_visits_every_pair_once() {
    let mut bp = DBVTBroadPhase::new(AcceptAll { made: 0, log: Vec::new() }, 1);
    bp.add(1, cube(0, 0, 0, 10));
    bp.add(2, cube(15, 0, 0, 10));
    bp.add(3, cube(-15, 0, 0, 10));
    let mut bump = Bump { log: Vec::new() };
    bp.for_each_pair_mut(&mut bump);
    assert_eq!(bump.log.len(), 2);
    let mut c = Collect { seen: Vec::new() };
    bp.for_each_pair(&mut c);
    let mut seen = c.seen;
    seen.sort();
    assert_eq!(seen, vec![(1, 2, 101), (1, 3, 102)]);
}

#[test]
fn ray_query_hits_all_three() {
    let mut bp = DBVTBroadPhase::new(AcceptAll { made: 0, log: Vec::new() }, 1);
    bp.add(1, cube(0, 0, 0, 1));
    bp.add(2, cube(10, 0, 0, 1));
    bp.add(3, cube(20, 0, 0, 1));
    bp.deactivate(2);
    let ray = Ray::new(Pnt3::new(-5, 0, 0), Vec3::new(1, 0, 0));
    let mut out = Vec::new();
    bp.interferences_with_ray(&ray, &mut out);
    assert_eq!(sorted(out), vec![1, 2, 3]);
    let back = Ray::new(Pnt3::new(-5, 0, 0), Vec3::new(-1, 0, 0));
    let mut none = Vec::new();
    bp.interferences_with_ray(&back, &mut none);
    assert!(none.is_empty());
    let above = Ray::new(Pnt3::new(-5, 5, 0), Vec3::new(1, 0, 0));
    let mut none = Vec::new();
    bp.interferences_with_ray(&above, &mut none);
    assert!(none.is_empty());
}

#[test]
fn ray_against_box_at_rational_parameter() {
    let ray = Ray::new(Pnt3::new(0, 0, 0), Vec3::new(2, 3, 0));
    let hit = Aabb::new(Pnt3::new(1, 2, 0), Pnt3::new(2, 3, 0));
    let miss = Aabb::new(Pnt3::new(0, 2, 0), Pnt3::new(1, 3, 0));
    assert!(ray_intersects_aabb(&ray, &hit));
    assert!(!ray_intersects_aabb(&ray, &miss));
    let still = Ray::new(Pnt3::new(1, 1, 1), Vec3::new(0, 0, 0));
    assert!(ray_intersects_aabb(&still, &cube(0, 0, 0, 1)));
    assert!(!ray_intersects_aabb(&still, &cube(5, 0, 0, 1)));
    let mut t = Dbvt::new();
    t.insert(1, hit);
    t.insert(2, miss);
    let mut out = Vec::new();
    t.interferences_with_ray(&ray, &mut out);
    assert_eq!(out, vec![1]);
}

#[test]
fn new_broad_phase_is_empty() {
    let bp: DBVTBroadPhase<AcceptAll, u32> = DBVTBroadPhase::new(AcceptAll { made: 0, log: Vec::new() }, 3);
    assert_eq!(bp.num_interferences(), 0);
    let mut out = Vec::new();
    bp.interferences_with_bounding_volume(&cube(0, 0, 0, 1000), &mut out);
    assert!(out.is_empty());
}

#[test]
fn pair_data_survives_other_updates() {
    let mut bp = DBVTBroadPhase::new(AcceptAll { made: 0, log: Vec::new() }, 1);
    bp.add(1, cube(0, 0, 0, 10));
    bp.add(2, cube(15, 0, 0, 10));
    bp.add(3, cube(100, 0, 0, 10));
    bp.update_object(3, cube(120, 0, 0, 10));
    bp.update_object(9, cube(0, 0, 0, 10));
    assert_eq!(bp.num_interferences(), 1);
    assert_eq!(bp.pair_at(0).value, 1);
}

#[test]
fn data_moves_with_pair_through_sleep() {
    let mut bp = DBVTBroadPhase::new(AcceptAll { made: 0, log: Vec::new() }, 1);
    bp.add(1, cube(0, 0, 0, 10));
    bp.add(2, cube(15, 0, 0, 10));
    bp.add(3, cube(-15, 0, 0, 10));
    bp.deactivate(2);
    bp.deactivate(1);
    let mut rec = Recorder { seen: Vec::new() };
    bp.activate(1, &mut rec);
    assert_eq!(rec.seen, vec![(1, 2, 1)]);
    let mut c = Collect { seen: Vec::new() };
    bp.for_each_pair(&mut c);
    let mut seen = c.seen;
    seen.sort();
    assert_eq!(seen, vec![(1, 2, 1), (1, 3, 2)]);
}

#[test]
fn dispatch_called_once_per_new_pair() {
    let mut bp = DBVTBroadPhase::new(Parity { made: 0, log: Vec::new() }, 1);
    for u in 1..5u64 {
        bp.add(u, cube(u as i64, 0, 0, 10));
    }
    let mut calls: Vec<(u64, u64)> = bp.dispatcher().log.iter().map(|p| if p.0 < p.1 { *p } else { (p.1, p.0) }).collect();
    calls.sort();
    assert_eq!(calls, vec![(1, 2), (1, 4), (2, 3), (3, 4)]);
    bp.update_object(9, cube(0, 0, 0, 10));
    bp.update_object(2, cube(3, 0, 0, 10));
    assert_eq!(bp.dispatcher().log.len(), 4);
}
