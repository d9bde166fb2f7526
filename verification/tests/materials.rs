use raytracer::hittable::HitRecord;
use raytracer::material::{metal_scatter, Dielectric, ScatterResult};
use raytracer::vec::{Scalar, Vec2, Vec3, ONE_KEY};

fn v(x: i64, y: i64, z: i64) -> Vec3 {
    Vec3::new(Scalar::new(x), Scalar::new(y), Scalar::new(z))
}

fn above_one() -> Scalar {
    Scalar::new(ONE_KEY + 1)
}

fn glass() -> Dielectric {
    Dielectric::new(Scalar::new(11), Scalar::new(22))
}

fn half() -> Scalar {
    Scalar::new(ONE_KEY - (1i64 << 52))
}

#[test]
fn clear_surface_takes_nothing_from_the_light() {
    let one = Vec3::one();
    assert_eq!(one, v(ONE_KEY, ONE_KEY, ONE_KEY));
    let cases = [
        (above_one(), Scalar::zero(), Scalar::zero()),
        (Scalar::one(), Scalar::zero(), Scalar::zero()),
        (Scalar::zero(), half(), Scalar::one()),
        (Scalar::zero(), Scalar::one(), half()),
        (Scalar::new(i64::MAX), Scalar::new(i64::MIN), Scalar::new(i64::MAX)),
        (Scalar::new(i64::MIN), Scalar::new(i64::MAX), Scalar::new(i64::MIN)),
    ];
    for (ratio_sin, draw, reflectance) in cases {
        let r = glass().scatter(ratio_sin, draw, reflectance, v(1, 2, 3), v(4, 5, 6)).unwrap();
        assert_eq!(r.attenuation, one);
    }
}

#[test]
fn clear_surface_takes_the_ratio_of_the_side_it_is_met_from() {
    assert_eq!(glass().ratio(true), Scalar::new(22));
    assert_eq!(glass().ratio(false), Scalar::new(11));
    assert_eq!(glass(), Dielectric { eta: Scalar::new(11), inverse_eta: Scalar::new(22) });
}

#[test]
fn clear_surface_mirrors_what_cannot_pass() {
    let (mirrored, bent) = (v(1, 2, 3), v(4, 5, 6));
    // no way through: mirrored whatever was drawn
    assert_eq!(glass().scatter(above_one(), Scalar::one(), Scalar::zero(), mirrored, bent).unwrap().scattered, mirrored);
    // exactly one is not above one
    assert_eq!(glass().scatter(Scalar::one(), Scalar::one(), Scalar::zero(), mirrored, bent).unwrap().scattered, bent);
    // the draw decides
    assert_eq!(glass().scatter(half(), Scalar::zero(), half(), mirrored, bent).unwrap().scattered, mirrored);
    assert_eq!(glass().scatter(half(), half(), half(), mirrored, bent).unwrap().scattered, bent);
    assert_eq!(glass().scatter(half(), Scalar::one(), half(), mirrored, bent).unwrap().scattered, bent);
}

#[test]
fn mirror_absorbs_what_would_go_below_it() {
    let (weight, along) = (v(7, 8, 9), v(1, 2, 3));
    assert_eq!(metal_scatter(weight, along, Scalar::new(1)), Some(ScatterResult { attenuation: weight, scattered: along }));
    assert_eq!(metal_scatter(weight, along, Scalar::one()), Some(ScatterResult { attenuation: weight, scattered: along }));
    assert_eq!(metal_scatter(weight, along, Scalar::zero()), None);
    assert_eq!(metal_scatter(weight, along, Scalar::new(-1)), None);
}

#[test]
fn record_turns_the_normal_against_the_ray() {
    let tag = 5u8;
    let (out, back) = (v(0, 0, 1), v(0, 0, -1));
    let front = HitRecord::with_face(v(1, 1, 1), out, back, Scalar::new(-3), Scalar::new(9), &tag, Vec2::zero());
    assert!(front.front_face);
    assert_eq!(front.normal, out);
    assert_eq!((front.p, front.t, *front.material, front.uv), (v(1, 1, 1), Scalar::new(9), 5, Vec2::zero()));
    let inside = HitRecord::with_face(v(1, 1, 1), out, back, Scalar::new(3), Scalar::new(9), &tag, Vec2::zero());
    assert!(!inside.front_face);
    assert_eq!(inside.normal, back);
    let grazing = HitRecord::with_face(v(1, 1, 1), out, back, Scalar::zero(), Scalar::new(9), &tag, Vec2::zero());
    assert!(!grazing.front_face);
    assert_eq!(grazing.normal, back);
}

#[test]
fn a_moved_record_keeps_all_but_the_point() {
    let tag = 5u8;
    let rec = HitRecord::new(v(1, 2, 3), v(0, 1, 0), Scalar::new(9), &tag, false, Vec2::one());
    let moved = rec.moved(v(7, 7, 7));
    assert_eq!((moved.p, moved.normal, moved.t), (v(7, 7, 7), v(0, 1, 0), Scalar::new(9)));
    assert_eq!((*moved.material, moved.front_face, moved.uv), (5, false, Vec2::one()));
    let turned = moved.turned(v(8, 8, 8), v(1, 0, 0));
    assert_eq!((turned.p, turned.normal, turned.t), (v(8, 8, 8), v(1, 0, 0), Scalar::new(9)));
    assert_eq!((*turned.material, turned.front_face, turned.uv), (5, false, Vec2::one()));
}
