use ncollide::bounding_sphere::BoundingSphere;
use ncollide::bvt::{Bvt, BvtNode};
use ncollide::geometry::{Ray, Vector3};
use ncollide::ray_interferences::RayInterferencesCollector;
use ncollide::shape::Shape;

fn v(x: i64, y: i64, z: i64) -> Vector3 {
    Vector3::new(x, y, z)
}

fn sphere(x: i64, y: i64, z: i64, r: i64) -> BoundingSphere {
    BoundingSphere::new(v(x, y, z), r)
}

/// A scattered set of spheres from a small linear congruential sequence.
fn scattered(n: usize) -> Vec<(usize, BoundingSphere)> {
    let mut state: u64 = 12345;
    let mut out = Vec::new();
    for i in 0..n {
        let mut next = || {
            state = state.wrapping_mul(6364136223846793005).wrapping_add(1442695040888963407);
            ((state >> 33) % 2001) as i64 - 1000
        };
        let (x, y, z) = (next(), next(), next());
        let r = (next() + 1000) / 40;
        out.push((i, sphere(x, y, z, r)));
    }
    out
}

fn brute_force(entries: &[(usize, BoundingSphere)], ray: &Ray) -> Vec<usize> {
    entries.iter().filter(|e| e.1.intersects_ray(ray)).map(|e| e.0).collect()
}

// The scene of four shapes in quarter units: ball r=0.5; capsule half-height
// 0.5, radius 0.75; cone half-height 0.5, radius 0.75; box (1, 0.5, 1).
fn four_shapes() -> Bvt {
    let shapes = [
        Shape::Ball { radius: 2 },
        Shape::Capsule { half_height: 2, radius: 3 },
        Shape::Cone { half_height: 2, radius: 3 },
        Shape::Cuboid { half_extents: v(4, 2, 4) },
    ];
    let places = [v(0, 0, 4), v(0, 0, 8), v(0, 0, 12), v(0, 8, 16)];
    let entries: Vec<(usize, BoundingSphere)> =
        (0..4).map(|i| (i, shapes[i].bounding_sphere(&places[i]))).collect();
    Bvt::new_balanced(entries)
}

#[test]
fn ray_along_z_hits_three_shapes() {
    let bvt = four_shapes();
    let hit = Ray::new(v(0, 0, 0), v(0, 0, 1));
    let mut collector = RayInterferencesCollector::new(&hit);
    bvt.visit(&mut collector);
    let mut found = collector.into_collected();
    assert_eq!(found.len(), 3);
    found.sort();
    assert_eq!(found, vec![0, 1, 2]);
}

#[test]
fn ray_against_z_hits_nothing() {
    let bvt = four_shapes();
    let miss = Ray::new(v(0, 0, 0), v(0, 0, -1));
    let mut collector = RayInterferencesCollector::new(&miss);
    bvt.visit(&mut collector);
    assert_eq!(collector.into_collected().len(), 0);
}

#[test]
fn pruned_query_matches_brute_force() {
    let entries = scattered(200);
    let bvt = Bvt::new_balanced(entries.clone());
    let rays = [
        Ray::new(v(-2000, 0, 0), v(1, 0, 0)),
        Ray::new(v(0, 0, 0), v(1, 1, 1)),
        Ray::new(v(500, -500, 300), v(-3, 2, 0)),
        Ray::new(v(0, 3000, 0), v(0, -1, 0)),
        Ray::new(v(0, 3000, 0), v(0, 1, 0)),
    ];
    for ray in rays.iter() {
        let mut pruned = bvt.ray_interferences(ray);
        let mut direct = brute_force(&entries, ray);
        pruned.sort();
        direct.sort();
        assert_eq!(pruned, direct);
    }
}

#[test]
fn leaves_hold_exactly_the_input() {
    let entries = scattered(77);
    let bvt = Bvt::new_balanced(entries.clone());
    let mut leaves = bvt.collect_leaves();
    leaves.sort_by_key(|e| e.0);
    assert_eq!(leaves, entries);
}

#[test]
fn merge_keeps_ray_hits() {
    let a = sphere(0, 0, 10, 1);
    let b = sphere(30, -20, 5, 4);
    let ray = Ray::new(v(0, 0, 0), v(0, 0, 1));
    assert!(a.intersects_ray(&ray));
    assert!(!b.intersects_ray(&ray));
    let m = a.merge(&b);
    assert!(m.intersects_ray(&ray));
    assert!(m.encloses(&a));
    assert!(m.encloses(&b));
    let m2 = b.merge(&a);
    assert!(m2.intersects_ray(&ray));
}

#[test]
fn merge_of_disjoint_spheres_is_about_the_midpoint() {
    let m = sphere(0, 0, 0, 1).merge(&sphere(10, 0, 0, 1));
    assert_eq!(m, sphere(5, 0, 0, 6));
}

#[test]
fn merge_of_nested_spheres_is_the_outer_one() {
    let outer = sphere(0, 0, 0, 10);
    let inner = sphere(3, 0, 0, 2);
    assert_eq!(outer.merge(&inner), outer);
    assert_eq!(inner.merge(&outer), outer);
}

#[test]
fn empty_input_reports_nothing() {
    let bvt = Bvt::new_balanced(Vec::new());
    assert_eq!(bvt.depth(), 0);
    assert!(bvt.root.is_none());
    let ray = Ray::new(v(0, 0, 0), v(1, 0, 0));
    let mut collector = RayInterferencesCollector::new(&ray);
    bvt.visit(&mut collector);
    assert!(collector.into_collected().is_empty());
    assert!(bvt.collect_leaves().is_empty());
}

#[test]
fn single_entry_is_a_single_leaf() {
    let s = sphere(1, 2, 3, 4);
    let bvt = Bvt::new_balanced(vec![(9, s)]);
    assert_eq!(bvt.root, Some(BvtNode::Leaf(9, s)));
    assert_eq!(bvt.depth(), 1);
}

#[test]
fn balanced_depth_for_1024_leaves() {
    let entries = scattered(1024);
    let bvt = Bvt::new_balanced(entries);
    assert_eq!(bvt.depth(), 11);
    assert!(bvt.depth() <= 20);
}

#[test]
fn building_twice_gives_the_same_tree() {
    let entries = scattered(150);
    let a = Bvt::new_balanced(entries.clone());
    let b = Bvt::new_balanced(entries);
    assert_eq!(a, b);
}

#[test]
fn split_follows_the_axis_of_widest_spread() {
    let entries = vec![
        (0, sphere(0, 50, 0, 1)),
        (1, sphere(1, -50, 0, 1)),
        (2, sphere(2, 10, 0, 1)),
        (3, sphere(3, -10, 0, 1)),
    ];
    let bvt = Bvt::new_balanced(entries);
    let ids: Vec<usize> = bvt.collect_leaves().iter().map(|e| e.0).collect();
    assert_eq!(ids, vec![1, 3, 2, 0]);
}

#[test]
fn ray_starting_inside_a_sphere_hits_it() {
    let s = sphere(0, 0, 0, 5);
    assert!(s.intersects_ray(&Ray::new(v(1, 1, 1), v(-1, 0, 0))));
    assert!(s.intersects_ray(&Ray::new(v(1, 1, 1), v(0, 0, 0))));
}

#[test]
fn ray_with_zero_direction_outside_misses() {
    let s = sphere(0, 0, 10, 5);
    assert!(!s.intersects_ray(&Ray::new(v(0, 0, 0), v(0, 0, 0))));
}

#[test]
fn ray_pointing_away_misses() {
    let s = sphere(0, 0, 10, 5);
    assert!(!s.intersects_ray(&Ray::new(v(0, 0, 0), v(0, 0, -1))));
    assert!(s.intersects_ray(&Ray::new(v(0, 0, 0), v(0, 0, 1))));
}

#[test]
fn ray_grazing_a_sphere_hits() {
    let s = sphere(0, 5, 10, 5);
    assert!(s.intersects_ray(&Ray::new(v(0, 0, 0), v(0, 0, 1))));
    let t = sphere(0, 6, 10, 5);
    assert!(!t.intersects_ray(&Ray::new(v(0, 0, 0), v(0, 0, 1))));
}
