use raytracer::aabb::AABB;
use raytracer::camera::{Camera, Radiance, NEAR_CLIP_KEY};
use raytracer::hittable::{HitRecord, Hittable, HittableList};
use raytracer::material::{Material, ScatterResult};
use raytracer::ray::Ray;
use raytracer::vec::{Scalar, Vec2, Vec3};

fn v(x: i64, y: i64, z: i64) -> Vec3 {
    Vec3::new(Scalar::new(x), Scalar::new(y), Scalar::new(z))
}

/// A surface that gives off `glow` and passes a ray on, weighed by `weight`,
/// along the ray's own direction with its last coordinate raised by one;
/// with no `weight` it absorbs.
struct Paint {
    glow: Vec3,
    weight: Option<Vec3>,
}

impl Material for Paint {
    fn scatter<M>(&self, ray: &Ray, record: &HitRecord<M>) -> Option<ScatterResult> {
        assert!(record.t.key >= NEAR_CLIP_KEY);
        self.weight.map(|w| ScatterResult {
            attenuation: w,
            scattered: Vec3::new(ray.direction.0, ray.direction.1, Scalar::new(ray.direction.2.key + 1)),
        })
    }

    fn emit_spec(&self) -> Vec3 {
        self.glow
    }

    fn emit(&self) -> Vec3 {
        self.glow
    }
}

/// A wall that a ray meets, at the parameter `at`, if the last coordinate of
/// its direction is below `until`.
struct Wall {
    at: i64,
    until: i64,
    paint: Paint,
    bbox: AABB,
}

fn wall(at: i64, until: i64, glow: Vec3, weight: Option<Vec3>) -> Wall {
    Wall { at: NEAR_CLIP_KEY + at, until, paint: Paint { glow, weight }, bbox: AABB::default() }
}

impl Hittable for Wall {
    type Mat = Paint;

    fn hit_spec<'a>(&'a self, ray: Ray, t_range: Vec2) -> Option<HitRecord<'a, Paint>> {
        self.hit(&ray, t_range)
    }

    fn hit<'a>(&'a self, ray: &Ray, t_range: Vec2) -> Option<HitRecord<'a, Paint>> {
        if ray.direction.2.key < self.until && t_range.contains(Scalar::new(self.at)) {
            Some(HitRecord::new(v(self.at, 0, 0), v(0, 0, 1), Scalar::new(self.at), &self.paint, true, Vec2::zero()))
        } else {
            None
        }
    }

    fn bounding_box_spec(&self) -> AABB {
        self.bbox
    }

    fn bounding_box(&self) -> &AABB {
        &self.bbox
    }

    fn slab_spec(interval: Vec2, origin: Scalar, direction: Scalar) -> Vec2 {
        Self::slab(interval, origin, direction)
    }

    fn slab(_interval: Vec2, _origin: Scalar, _direction: Scalar) -> Vec2 {
        Vec2::new(Scalar::new(i64::MIN), Scalar::new(i64::MAX))
    }
}

fn camera(max_depth: i32) -> Camera {
    Camera {
        image_resolution: (4, 2),
        pixel_delta_uv: (Vec3::zero(), Vec3::zero()),
        center: Vec3::zero(),
        first_pixel: Vec3::zero(),
        defocus_angle: Scalar::zero(),
        defocus_uv: (Vec3::zero(), Vec3::zero()),
        background: v(3, 5, 8),
        samples_per_pixel: 1,
        max_ray_range: Scalar::new(NEAR_CLIP_KEY + 1000),
        max_depth,
    }
}

fn start() -> Ray {
    Ray::new(v(0, 0, 0), v(1, 1, 0), Scalar::new(77))
}

#[test]
fn a_ray_at_the_last_depth_is_black() {
    let mut world = HittableList::new();
    world.push(wall(5, 100, v(9, 9, 9), Some(v(1, 1, 1))));
    let cam = camera(3);
    assert_eq!(cam.calc_ray(&start(), &world, 3), Radiance::Black);
    assert_eq!(cam.calc_ray(&start(), &world, 4), Radiance::Black);
    assert_eq!(camera(0).calc_ray(&start(), &world, 0), Radiance::Black);
    let empty: HittableList<Wall> = HittableList::new();
    assert_eq!(cam.calc_ray(&start(), &empty, 3), Radiance::Black);
}

#[test]
fn a_ray_that_hits_nothing_brings_the_background() {
    let empty: HittableList<Wall> = HittableList::new();
    assert_eq!(camera(3).calc_ray(&start(), &empty, 0), Radiance::Background(v(3, 5, 8)));
    let mut far = HittableList::new();
    far.push(wall(1001, 100, v(9, 9, 9), None));
    assert_eq!(camera(3).calc_ray(&start(), &far, 2), Radiance::Background(v(3, 5, 8)));
    let mut near = HittableList::new();
    near.push(wall(-1, 100, v(9, 9, 9), None));
    assert_eq!(camera(3).calc_ray(&start(), &near, 0), Radiance::Background(v(3, 5, 8)));
}

#[test]
fn a_surface_that_absorbs_gives_its_own_light() {
    let mut world = HittableList::new();
    world.push(wall(5, 100, v(9, 8, 7), None));
    assert_eq!(camera(3).calc_ray(&start(), &world, 0), Radiance::Emitted(v(9, 8, 7)));
    let mut edge = HittableList::new();
    edge.push(wall(0, 100, v(1, 2, 3), None));
    edge.push(wall(1000, 100, v(4, 5, 6), None));
    assert_eq!(camera(3).calc_ray(&start(), &edge, 0), Radiance::Emitted(v(1, 2, 3)));
}

#[test]
fn a_path_goes_on_until_it_leaves_the_scene() {
    let mut world = HittableList::new();
    world.push(wall(5, 2, v(1, 0, 0), Some(v(2, 2, 2))));
    let found = camera(10).calc_ray(&start(), &world, 0);
    let expected = Radiance::Scattered {
        attenuation: v(2, 2, 2),
        scattered: v(1, 1, 1),
        emitted: v(1, 0, 0),
        incoming: Box::new(Radiance::Scattered {
            attenuation: v(2, 2, 2),
            scattered: v(1, 1, 2),
            emitted: v(1, 0, 0),
            incoming: Box::new(Radiance::Background(v(3, 5, 8))),
        }),
    };
    assert_eq!(found, expected);
}

#[test]
fn a_path_is_cut_at_the_last_depth() {
    let mut world = HittableList::new();
    world.push(wall(5, 100, v(1, 0, 0), Some(v(2, 2, 2))));
    let mut found = camera(4).calc_ray(&start(), &world, 1);
    let mut bounces = 0;
    loop {
        match found {
            Radiance::Scattered { attenuation, scattered, emitted, incoming } => {
                assert_eq!(attenuation, v(2, 2, 2));
                assert_eq!(emitted, v(1, 0, 0));
                bounces += 1;
                assert_eq!(scattered, v(1, 1, bounces));
                found = *incoming;
            }
            other => {
                assert_eq!(other, Radiance::Black);
                break;
            }
        }
    }
    assert_eq!(bounces, 3);
}

#[test]
fn the_next_ray_leaves_the_hit_at_the_same_moment() {
    struct Probe {
        bbox: AABB,
        paint: Paint,
    }
    impl Hittable for Probe {
        type Mat = Paint;
        fn hit_spec<'a>(&'a self, ray: Ray, t_range: Vec2) -> Option<HitRecord<'a, Paint>> {
            self.hit(&ray, t_range)
        }
        fn hit<'a>(&'a self, ray: &Ray, t_range: Vec2) -> Option<HitRecord<'a, Paint>> {
            assert_eq!(ray.time, Scalar::new(77));
            assert_eq!(t_range, Vec2::new(Scalar::new(NEAR_CLIP_KEY), Scalar::new(NEAR_CLIP_KEY + 1000)));
            if ray.direction.2.key == 0 {
                assert_eq!(ray.origin, v(0, 0, 0));
            } else {
                assert_eq!(ray.origin, v(40, 41, 42));
            }
            Some(HitRecord::new(v(40, 41, 42), v(0, 0, 1), t_range.0, &self.paint, true, Vec2::zero()))
        }
        fn bounding_box_spec(&self) -> AABB {
            self.bbox
        }
        fn bounding_box(&self) -> &AABB {
            &self.bbox
        }
        fn slab_spec(interval: Vec2, origin: Scalar, direction: Scalar) -> Vec2 {
            Self::slab(interval, origin, direction)
        }
        fn slab(interval: Vec2, _origin: Scalar, _direction: Scalar) -> Vec2 {
            interval
        }
    }
    let probe = Probe { bbox: AABB::default(), paint: Paint { glow: v(0, 0, 0), weight: Some(v(1, 1, 1)) } };
    let mut found = camera(5).calc_ray(&start(), &probe, 0);
    let mut bounces = 0;
    while let Radiance::Scattered { incoming, .. } = found {
        bounces += 1;
        found = *incoming;
    }
    assert_eq!(bounces, 5);
}

#[test]
fn shade_follows_what_the_surface_made_of_the_ray() {
    let mut world = HittableList::new();
    world.push(wall(5, 1, v(1, 0, 0), None));
    let cam = camera(3);
    // absorbed: the surface's own light, whatever lies beyond
    assert_eq!(cam.shade(&start(), &world, 0, v(4, 4, 4), v(6, 6, 6), None), Radiance::Emitted(v(6, 6, 6)));
    // passed on toward the wall
    let on = ScatterResult { attenuation: v(2, 3, 4), scattered: v(9, 9, 0) };
    assert_eq!(
        cam.shade(&start(), &world, 0, v(4, 4, 4), v(6, 6, 6), Some(on)),
        Radiance::Scattered {
            attenuation: v(2, 3, 4),
            scattered: v(9, 9, 0),
            emitted: v(6, 6, 6),
            incoming: Box::new(Radiance::Emitted(v(1, 0, 0))),
        }
    );
    // passed on past the wall
    let away = ScatterResult { attenuation: v(2, 3, 4), scattered: v(9, 9, 1) };
    assert_eq!(
        cam.shade(&start(), &world, 1, v(4, 4, 4), v(6, 6, 6), Some(away)),
        Radiance::Scattered {
            attenuation: v(2, 3, 4),
            scattered: v(9, 9, 1),
            emitted: v(6, 6, 6),
            incoming: Box::new(Radiance::Background(v(3, 5, 8))),
        }
    );
    // passed on at the last level before the end
    assert_eq!(
        cam.shade(&start(), &world, 2, v(4, 4, 4), v(6, 6, 6), Some(on)),
        Radiance::Scattered {
            attenuation: v(2, 3, 4),
            scattered: v(9, 9, 0),
            emitted: v(6, 6, 6),
            incoming: Box::new(Radiance::Black),
        }
    );
}
