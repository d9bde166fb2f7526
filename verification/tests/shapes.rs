//! The library under shapes that compute in floating point: a sphere and a
//! quad, a box test with real divisions, and the hierarchy over many spheres.

use raytracer::aabb::AABB;
use raytracer::bvh::BvhNode;
use raytracer::camera::NEAR_CLIP_KEY;
use raytracer::geometry::{first_root_in_range, has_no_root, inside_unit_square, is_parallel, PARALLEL_KEY};
use raytracer::hittable::{HitRecord, Hittable, HittableList};
use raytracer::ray::Ray;
use raytracer::vec::{Scalar, Vec2, Vec3, ONE_KEY};
use std::sync::Arc;

fn key(x: f64) -> Scalar {
    let bits = (x + 0.0).to_bits() as i64;
    Scalar::new(bits ^ ((((bits >> 63) as u64) >> 1) as i64))
}

fn number(s: Scalar) -> f64 {
    let bits = s.key ^ ((((s.key >> 63) as u64) >> 1) as i64);
    f64::from_bits(bits as u64)
}

fn keys(v: [f64; 3]) -> Vec3 {
    Vec3::new(key(v[0]), key(v[1]), key(v[2]))
}

fn numbers(v: Vec3) -> [f64; 3] {
    [number(v.0), number(v.1), number(v.2)]
}

fn ray(origin: [f64; 3], direction: [f64; 3]) -> Ray {
    Ray::new(keys(origin), keys(direction), key(0.0))
}

fn everything() -> Vec2 {
    Vec2::new(key(f64::NEG_INFINITY), key(f64::INFINITY))
}

fn ahead() -> Vec2 {
    Vec2::new(key(0.001), key(f64::INFINITY))
}

fn dot(a: [f64; 3], b: [f64; 3]) -> f64 {
    a[0] * b[0] + a[1] * b[1] + a[2] * b[2]
}

fn cross(a: [f64; 3], b: [f64; 3]) -> [f64; 3] {
    [a[1] * b[2] - a[2] * b[1], a[2] * b[0] - a[0] * b[2], a[0] * b[1] - a[1] * b[0]]
}

fn sub(a: [f64; 3], b: [f64; 3]) -> [f64; 3] {
    [a[0] - b[0], a[1] - b[1], a[2] - b[2]]
}

fn at(origin: [f64; 3], direction: [f64; 3], t: f64) -> [f64; 3] {
    [origin[0] + direction[0] * t, origin[1] + direction[1] * t, origin[2] + direction[2] * t]
}

fn real_slab(interval: Vec2, origin: Scalar, direction: Scalar) -> Vec2 {
    let t0 = (number(interval.0) - number(origin)) / number(direction);
    let t1 = (number(interval.1) - number(origin)) / number(direction);
    let t0 = if t0.is_nan() { f64::NEG_INFINITY } else { t0 };
    let t1 = if t1.is_nan() { f64::INFINITY } else { t1 };
    Vec2::new(key(t0), key(t1))
}

fn box_between(a: [f64; 3], b: [f64; 3]) -> AABB {
    let around = |x: f64| Vec2::new(key(x - 0.000005), key(x + 0.000005));
    let widened = AABB { x_interval: around(a[0]), y_interval: around(a[1]), z_interval: around(a[2]) };
    AABB::new(keys(a), keys(b), &widened)
}

struct Ball {
    center: [f64; 3],
    radius: f64,
    tag: u32,
    bbox: AABB,
}

fn ball(center: [f64; 3], radius: f64, tag: u32) -> Ball {
    let low = [center[0] - radius, center[1] - radius, center[2] - radius];
    let high = [center[0] + radius, center[1] + radius, center[2] + radius];
    Ball { center, radius, tag, bbox: box_between(low, high) }
}

impl Hittable for Ball {
    type Mat = u32;

    fn hit_spec<'a>(&'a self, ray: Ray, t_range: Vec2) -> Option<HitRecord<'a, u32>> {
        self.hit(&ray, t_range)
    }

    fn hit<'a>(&'a self, ray: &Ray, t_range: Vec2) -> Option<HitRecord<'a, u32>> {
        let (origin, direction) = (numbers(ray.origin), numbers(ray.direction));
        let oc = sub(self.center, origin);
        let a = dot(direction, direction);
        let h = dot(direction, oc);
        let c = dot(oc, oc) - self.radius * self.radius;
        let k = h * h - a * c;
        if has_no_root(key(k)) {
            return None;
        }
        let k = k.sqrt();
        let t = first_root_in_range(key((h - k) / a), key((h + k) / a), t_range)?;
        let p = at(origin, direction, number(t));
        let out = sub(p, self.center);
        let normal = [out[0] / self.radius, out[1] / self.radius, out[2] / self.radius];
        let reversed = [-normal[0], -normal[1], -normal[2]];
        Some(HitRecord::with_face(keys(p), keys(normal), keys(reversed), key(dot(direction, normal)), t, &self.tag, Vec2::zero()))
    }

    fn bounding_box_spec(&self) -> AABB {
        self.bbox
    }

    fn bounding_box(&self) -> &AABB {
        &self.bbox
    }

    fn slab_spec(interval: Vec2, origin: Scalar, direction: Scalar) -> Vec2 {
        real_slab(interval, origin, direction)
    }

    fn slab(interval: Vec2, origin: Scalar, direction: Scalar) -> Vec2 {
        real_slab(interval, origin, direction)
    }
}

/// The planar coordinates and the parameter at which a ray meets the plane of
/// the quad at `q` with the edges `u` and `v`, if it counts as a hit.
fn quad_hit(q: [f64; 3], u: [f64; 3], v: [f64; 3], origin: [f64; 3], direction: [f64; 3], t_range: Vec2) -> Option<(f64, f64, f64)> {
    let n = cross(u, v);
    let nn = dot(n, n);
    let w = [n[0] / nn, n[1] / nn, n[2] / nn];
    let denominator = dot(n, direction);
    if is_parallel(key(denominator)) {
        return None;
    }
    let t = (dot(n, q) - dot(n, origin)) / denominator;
    if !t_range.contains(key(t)) {
        return None;
    }
    let p = at(origin, direction, t);
    let alpha = dot(w, cross(sub(p, q), v));
    let beta = dot(w, cross(u, sub(p, q)));
    if inside_unit_square(key(alpha), key(beta)) {
        Some((t, alpha, beta))
    } else {
        None
    }
}

#[test]
fn keys_order_as_numbers_do() {
    let samples = [f64::NEG_INFINITY, -1.0e30, -2.5, -1.0, -1.0e-300, 0.0, 1.0e-300, 0.001, 1.0, 2.5, 1.0e30, f64::INFINITY];
    for i in 0..samples.len() {
        assert_eq!(number(key(samples[i])), samples[i]);
        for j in 0..samples.len() {
            assert_eq!(key(samples[i]).lt(key(samples[j])), samples[i] < samples[j]);
            assert_eq!(key(samples[i]).le(key(samples[j])), samples[i] <= samples[j]);
            assert_eq!(number(key(samples[i]).min(key(samples[j]))), samples[i].min(samples[j]));
            assert_eq!(number(key(samples[i]).max(key(samples[j]))), samples[i].max(samples[j]));
        }
    }
    assert_eq!(key(0.0), Scalar::zero());
    assert_eq!(key(-0.0), Scalar::zero());
}

#[test]
fn named_keys_are_those_of_their_numbers() {
    assert_eq!(key(1.0).key, ONE_KEY);
    assert_eq!(key(1e-8).key, PARALLEL_KEY);
    assert_eq!(key(-1e-8).key, -PARALLEL_KEY - 1);
    assert_eq!(key(0.001).key, NEAR_CLIP_KEY);
}

#[test]
fn sphere_is_hit_at_its_near_side() {
    let unit = ball([0.0, 0.0, 0.0], 1.0, 7);
    let rec = unit.hit(&ray([0.0, 0.0, 5.0], [0.0, 0.0, -1.0]), ahead()).unwrap();
    assert_eq!(number(rec.t), 4.0);
    assert_eq!(numbers(rec.normal), [0.0, 0.0, 1.0]);
    assert_eq!(numbers(rec.p), [0.0, 0.0, 1.0]);
    assert!(rec.front_face);
    assert_eq!(*rec.material, 7);
}

#[test]
fn sphere_is_hit_from_inside_at_its_far_root() {
    let unit = ball([0.0, 0.0, 0.0], 1.0, 7);
    let rec = unit.hit(&ray([0.0, 0.0, 0.0], [0.0, 0.0, -1.0]), ahead()).unwrap();
    assert_eq!(number(rec.t), 1.0);
    assert!(!rec.front_face);
    assert_eq!(numbers(rec.normal), [0.0, 0.0, 1.0]);
    assert!(unit.hit(&ray([0.0, 0.0, 5.0], [0.0, 0.0, 1.0]), ahead()).is_none());
    assert!(unit.hit(&ray([0.0, 3.0, 5.0], [0.0, 0.0, -1.0]), ahead()).is_none());
}

#[test]
fn first_root_prefers_the_near_one() {
    let range = Vec2::new(key(0.001), key(100.0));
    assert_eq!(first_root_in_range(key(4.0), key(6.0), range), Some(key(4.0)));
    assert_eq!(first_root_in_range(key(-1.0), key(6.0), range), Some(key(6.0)));
    assert_eq!(first_root_in_range(key(0.001), key(6.0), range), Some(key(0.001)));
    assert_eq!(first_root_in_range(key(-1.0), key(100.0), range), Some(key(100.0)));
    assert_eq!(first_root_in_range(key(-1.0), key(100.5), range), None);
    assert_eq!(first_root_in_range(key(-6.0), key(-4.0), range), None);
    assert_eq!(first_root_in_range(key(f64::NAN), key(f64::NAN), everything()), None);
}

#[test]
fn quad_centre_has_the_middle_coordinates() {
    let (q, u, v) = ([0.0, 0.0, 0.0], [1.0, 0.0, 0.0], [0.0, 1.0, 0.0]);
    let (t, alpha, beta) = quad_hit(q, u, v, [0.5, 0.5, 3.0], [0.0, 0.0, -1.0], ahead()).unwrap();
    assert_eq!((alpha, beta), (0.5, 0.5));
    assert_eq!(t, 3.0);
}

#[test]
fn quad_is_missed_beside_it_and_along_it() {
    let (q, u, v) = ([0.0, 0.0, 0.0], [1.0, 0.0, 0.0], [0.0, 1.0, 0.0]);
    assert!(quad_hit(q, u, v, [1.5, 0.5, 3.0], [0.0, 0.0, -1.0], ahead()).is_none());
    assert!(quad_hit(q, u, v, [0.5, -0.1, 3.0], [0.0, 0.0, -1.0], ahead()).is_none());
    assert!(quad_hit(q, u, v, [0.5, 0.5, 3.0], [1.0, 0.0, 0.0], ahead()).is_none());
    assert!(quad_hit(q, u, v, [0.5, 0.5, 3.0], [0.0, 0.0, 1.0], ahead()).is_none());
    assert_eq!(quad_hit(q, u, v, [1.0, 1.0, 3.0], [0.0, 0.0, -1.0], ahead()).map(|h| (h.1, h.2)), Some((1.0, 1.0)));
    assert_eq!(quad_hit(q, u, v, [0.0, 0.0, 3.0], [0.0, 0.0, -1.0], ahead()).map(|h| (h.1, h.2)), Some((0.0, 0.0)));
}

#[test]
fn parallel_means_within_a_hundred_millionth_of_zero() {
    assert!(is_parallel(key(0.0)));
    assert!(is_parallel(key(9.9e-9)));
    assert!(is_parallel(key(-9.9e-9)));
    assert!(!is_parallel(key(1e-8)));
    assert!(!is_parallel(key(-1e-8)));
    assert!(!is_parallel(key(1.0)));
    assert!(!is_parallel(key(-1.0)));
}

#[test]
fn unit_square_includes_its_edges() {
    assert!(inside_unit_square(key(0.0), key(1.0)));
    assert!(inside_unit_square(key(0.5), key(0.5)));
    assert!(!inside_unit_square(key(-1e-9), key(0.5)));
    assert!(!inside_unit_square(key(0.5), key(1.0000001)));
    assert!(!inside_unit_square(key(1.5), key(0.5)));
}

#[test]
fn box_is_hit_by_the_lines_that_cross_it() {
    let b = box_between([-1.0, -1.0, -1.0], [1.0, 2.0, 3.0]);
    assert!(b.hit::<Ball>(&ray([0.0, 0.0, 10.0], [0.0, 0.0, -1.0]), everything()));
    assert!(b.hit::<Ball>(&ray([0.0, 0.0, 10.0], [0.0, 0.0, 1.0]), everything()));
    assert!(!b.hit::<Ball>(&ray([0.0, 0.0, 10.0], [0.0, 0.0, 1.0]), ahead()));
    assert!(b.hit::<Ball>(&ray([5.0, 5.0, 5.0], [-1.0, -1.0, -1.0]), everything()));
    assert!(!b.hit::<Ball>(&ray([5.0, 0.0, 0.0], [0.0, 1.0, 0.0]), everything()));
    assert!(!b.hit::<Ball>(&ray([0.0, 5.0, 10.0], [0.0, 0.0, -1.0]), everything()));
    assert!(b.hit::<Ball>(&ray([0.0, 1.5, 10.0], [0.0, 0.0, -1.0]), everything()));
    // a direction of zero on an axis bounds nothing on it while the origin lies between the planes
    assert!(b.hit::<Ball>(&ray([0.5, 0.5, 0.5], [0.0, 1.0, 0.0]), everything()));
    // the ray stops short of the box
    assert!(!b.hit::<Ball>(&ray([0.0, 0.0, 10.0], [0.0, 0.0, -1.0]), Vec2::new(key(0.001), key(6.5))));
    assert!(b.hit::<Ball>(&ray([0.0, 0.0, 10.0], [0.0, 0.0, -1.0]), Vec2::new(key(0.001), key(7.5))));
}

#[test]
fn box_of_one_point_is_hit_through_that_point() {
    let p = [2.0, -3.0, 0.5];
    let b = box_between(p, p);
    assert_eq!(number(b.index(0).0), 2.0 - 0.000005);
    assert_eq!(number(b.index(0).1), 2.0 + 0.000005);
    assert!(number(b.index(1).0) < -3.0 && -3.0 < number(b.index(1).1));
    assert!(b.hit::<Ball>(&ray([0.0, 0.0, 0.0], p), everything()));
    assert!(b.hit::<Ball>(&ray([2.0, -3.0, 9.0], [0.0, 0.0, -1.0]), everything()));
    assert!(b.hit::<Ball>(&ray([1.0, -2.0, 1.5], [1.0, -1.0, -1.0]), everything()));
    assert!(!b.hit::<Ball>(&ray([2.1, -3.0, 9.0], [0.0, 0.0, -1.0]), everything()));
}

#[test]
fn flat_box_keeps_its_width_where_it_has_one() {
    let b = box_between([0.0, 1.0, 0.0], [4.0, 1.0, -2.0]);
    assert_eq!((number(b.index(0).0), number(b.index(0).1)), (0.0, 4.0));
    assert_eq!((number(b.index(1).0), number(b.index(1).1)), (1.0 - 0.000005, 1.0 + 0.000005));
    assert_eq!((number(b.index(2).0), number(b.index(2).1)), (-2.0, 0.0));
}

fn next(seed: &mut u64) -> f64 {
    *seed = seed.wrapping_mul(6364136223846793005).wrapping_add(1442695040888963407);
    ((*seed >> 11) as f64) / ((1u64 << 53) as f64)
}

#[test]
fn hierarchy_of_spheres_finds_what_a_scan_finds() {
    let mut seed = 2024u64;
    for round in 0..20usize {
        let count = 1 + (round * 7) % 40;
        let mut list: Vec<Arc<Ball>> = Vec::new();
        let mut world = HittableList::new();
        for tag in 0..count {
            let center = [next(&mut seed) * 20.0 - 10.0, next(&mut seed) * 20.0 - 10.0, next(&mut seed) * 20.0 - 10.0];
            let radius = 0.2 + next(&mut seed) * 2.0;
            list.push(Arc::new(ball(center, radius, tag as u32)));
            world.push(ball(center, radius, tag as u32));
        }
        let node = BvhNode::new(&mut list);
        assert_eq!(list.len(), count);
        let mut hits = 0;
        for _ in 0..200 {
            let origin = [next(&mut seed) * 40.0 - 20.0, next(&mut seed) * 40.0 - 20.0, -30.0];
            let toward = [next(&mut seed) * 20.0 - 10.0, next(&mut seed) * 20.0 - 10.0, next(&mut seed) * 20.0 - 10.0];
            let r = ray(origin, sub(toward, origin));
            let a = node.hit(&r, ahead());
            let b = world.hit(&r, ahead());
            match (a, b) {
                (None, None) => {}
                (Some(a), Some(b)) => {
                    hits += 1;
                    assert_eq!(a.t, b.t);
                    assert_eq!(a.p, b.p);
                    assert_eq!(a.normal, b.normal);
                    assert_eq!(*a.material, *b.material);
                }
                _ => panic!("one found a hit and the other did not"),
            }
        }
        assert!(hits > 0);
    }
}

#[test]
fn a_discriminant_below_zero_leaves_no_root() {
    assert!(has_no_root(key(-1.0)));
    assert!(has_no_root(key(-1e-300)));
    assert!(!has_no_root(key(0.0)));
    assert!(!has_no_root(key(-0.0)));
    assert!(!has_no_root(key(1e-300)));
    assert!(!has_no_root(key(4.0)));
    // a ray that only touches the sphere has one root, twice
    let unit = ball([0.0, 0.0, 0.0], 1.0, 7);
    let rec = unit.hit(&ray([1.0, 0.0, 5.0], [0.0, 0.0, -1.0]), ahead()).unwrap();
    assert_eq!(number(rec.t), 5.0);
    assert!(unit.hit(&ray([1.0000001, 0.0, 5.0], [0.0, 0.0, -1.0]), ahead()).is_none());
}

#[test]
fn list_of_one_sphere_has_the_box_of_the_sphere() {
    let mut world = HittableList::new();
    world.push(ball([10.0, 10.0, 10.0], 1.0, 0));
    assert_eq!(world.len(), 1);
    for axis in 0..3 {
        let side = *world.bounding_box().index(axis);
        assert_eq!((number(side.0), number(side.1)), (9.0, 11.0));
    }
    world.push(ball([-4.0, 10.0, 12.0], 2.0, 1));
    assert_eq!(world.len(), 2);
    assert_eq!(world.index(0).tag, 0);
    assert_eq!(world.index(1).tag, 1);
    let b = world.bounding_box();
    assert_eq!((number(b.index(0).0), number(b.index(0).1)), (-6.0, 11.0));
    assert_eq!((number(b.index(1).0), number(b.index(1).1)), (8.0, 12.0));
    assert_eq!((number(b.index(2).0), number(b.index(2).1)), (9.0, 14.0));
}
