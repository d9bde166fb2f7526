use raytracer::aabb::AABB;
use raytracer::geometry::extrema;
use raytracer::vec::{Scalar, Vec2, Vec3};

fn span(low: i64, high: i64) -> Vec2 {
    Vec2::new(Scalar::new(low), Scalar::new(high))
}

fn point(x: i64, y: i64, z: i64) -> Vec3 {
    Vec3::new(Scalar::new(x), Scalar::new(y), Scalar::new(z))
}

fn holds(b: &AABB, p: Vec3) -> bool {
    b.x_interval.contains(p.0) && b.y_interval.contains(p.1) && b.z_interval.contains(p.2)
}

fn corners(b: &AABB) -> Vec<Vec3> {
    let mut out = Vec::new();
    for x in [b.x_interval.0, b.x_interval.1] {
        for y in [b.y_interval.0, b.y_interval.1] {
            for z in [b.z_interval.0, b.z_interval.1] {
                out.push(Vec3::new(x, y, z));
            }
        }
    }
    out
}

#[test]
fn union_takes_the_outer_bounds() {
    let a = AABB { x_interval: span(0, 4), y_interval: span(-3, -1), z_interval: span(10, 20) };
    let b = AABB { x_interval: span(2, 9), y_interval: span(-2, 7), z_interval: span(-5, 12) };
    let u = AABB::from_aabb(&a, &b);
    assert_eq!(u, AABB { x_interval: span(0, 9), y_interval: span(-3, 7), z_interval: span(-5, 20) });
    assert_eq!(AABB::from_aabb(&b, &a), u);
    assert_eq!(AABB::from_aabb(&a, &a), a);
}

#[test]
fn union_holds_every_corner_of_both() {
    let mut seed = 99u64;
    let mut draw = || {
        seed = seed.wrapping_mul(6364136223846793005).wrapping_add(1442695040888963407);
        ((seed >> 33) % 2001) as i64 - 1000
    };
    for _ in 0..200 {
        let mut make = || {
            let mut side = || {
                let (p, q) = (draw(), draw());
                span(p.min(q), p.max(q))
            };
            AABB { x_interval: side(), y_interval: side(), z_interval: side() }
        };
        let (a, b) = (make(), make());
        let u = AABB::from_aabb(&a, &b);
        for c in corners(&a).into_iter().chain(corners(&b)) {
            assert!(holds(&u, c));
        }
    }
}

#[test]
fn default_box_is_the_origin() {
    let d = AABB::default();
    assert_eq!(d, AABB { x_interval: span(0, 0), y_interval: span(0, 0), z_interval: span(0, 0) });
    assert_eq!(*d.index(0), span(0, 0));
}

#[test]
fn index_picks_the_axis() {
    let a = AABB { x_interval: span(0, 4), y_interval: span(-3, -1), z_interval: span(10, 20) };
    assert_eq!(*a.index(0), span(0, 4));
    assert_eq!(*a.index(1), span(-3, -1));
    assert_eq!(*a.index(2), span(10, 20));
    let p = point(7, 8, 9);
    assert_eq!((p.index(0).key, p.index(1).key, p.index(2).key), (7, 8, 9));
}

#[test]
fn new_orders_the_corners_and_widens_flat_axes() {
    let widened = AABB { x_interval: span(4, 6), y_interval: span(-8, -6), z_interval: span(1, 3) };
    let b = AABB::new(point(5, -7, 2), point(1, -7, 9), &widened);
    assert_eq!(b, AABB { x_interval: span(1, 5), y_interval: span(-8, -6), z_interval: span(2, 9) });
    let p = AABB::new(point(5, -7, 2), point(5, -7, 2), &widened);
    assert_eq!(p, widened);
    assert_eq!(AABB::expand_zero_thickness(span(3, 3), span(2, 4)), span(2, 4));
    assert_eq!(AABB::expand_zero_thickness(span(3, 5), span(2, 4)), span(3, 5));
}

#[test]
fn extrema_are_the_least_and_greatest_on_each_axis() {
    let points = vec![point(3, -1, 7), point(-2, 5, 7), point(0, 0, 9), point(3, 4, -6)];
    assert_eq!(extrema(&points), (point(-2, -1, -6), point(3, 5, 9)));
    assert_eq!(extrema(&vec![point(1, 2, 3)]), (point(1, 2, 3), point(1, 2, 3)));
}

#[test]
fn scalars_and_vectors_hold_what_they_were_given() {
    assert_eq!(Scalar::new(-4).key, -4);
    assert_eq!(Scalar::zero().key, 0);
    assert_eq!(Scalar::new(3).min(Scalar::new(-3)).key, -3);
    assert_eq!(Scalar::new(3).max(Scalar::new(-3)).key, 3);
    assert!(Scalar::new(3).lt(Scalar::new(4)) && !Scalar::new(4).lt(Scalar::new(4)));
    assert!(Scalar::new(4).le(Scalar::new(4)) && !Scalar::new(5).le(Scalar::new(4)));
    assert_eq!(Vec3::from_single(Scalar::new(2)), point(2, 2, 2));
    assert_eq!(Vec3::zero(), point(0, 0, 0));
    assert_eq!(Vec2::from_single(Scalar::new(2)), span(2, 2));
    assert_eq!(Vec2::zero(), span(0, 0));
    assert!(span(1, 3).contains(Scalar::new(1)) && span(1, 3).contains(Scalar::new(3)));
    assert!(!span(1, 3).contains(Scalar::new(0)) && !span(1, 3).contains(Scalar::new(4)));
    assert!(!span(3, 1).contains(Scalar::new(2)));
}
