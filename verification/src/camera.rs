use vstd::prelude::*;
use crate::hittable::Hittable;
use crate::color::Color;
use crate::material::{Material, ScatterResult};
use crate::ray::Ray;
use crate::vec::{Point3, Scalar, Vec2, Vec3};

verus! {

/// The key of one thousandth, the least parameter at which a ray is let hit
/// anything: a ray that leaves a surface does not hit that surface again.
pub const NEAR_CLIP_KEY: i64 = 4562254508917369340;

/// The light that comes back along a ray, as the sum that yields it.
///
/// The colour it stands for is zero for `Black`, the colour held for
/// `Background` and `Emitted`, and, for `Scattered`, `attenuation` times the
/// colour of `incoming`, component by component, plus `emitted`.
#[derive(PartialEq, Eq, Debug)]
pub enum Radiance {
    /// The ray was cast at the depth at which paths end.
    Black,
    /// The ray hit nothing.
    Background(Color),
    /// The ray hit a surface that absorbed it.
    Emitted(Color),
    /// The ray hit a surface that sent it on along `scattered`.
    Scattered { attenuation: Color, scattered: Vec3, emitted: Color, incoming: Box<Radiance> },
}

impl Radiance {
    /// The number of surfaces that passed the ray on.
    pub open spec fn bounces(self) -> nat
        decreases self,
    {
        match self {
            Radiance::Scattered { attenuation, scattered, emitted, incoming } => 1 + incoming.bounces(),
            _ => 0,
        }
    }
}

/// The point of view, the image and the bounds of a rendering.
#[derive(Clone, Copy, Debug)]
pub struct Camera {
    pub image_resolution: (u32, u32),
    pub pixel_delta_uv: (Vec3, Vec3),
    pub center: Point3,
    pub first_pixel: Point3,
    pub defocus_angle: Scalar,
    pub defocus_uv: (Vec3, Vec3),
    pub background: Color,
    pub samples_per_pixel: i32,
    pub max_ray_range: Scalar,
    pub max_depth: i32,
}

impl Camera {
    /// The range of parameters over which a ray is tried against the scene.
    pub open spec fn t_range(&self) -> Vec2 {
        Vec2(Scalar { key: NEAR_CLIP_KEY }, self.max_ray_range)
    }

    /// `result` is the light along `ray` cast at `depth` into `world`: black at
    /// the depth at which paths end; else the background where the ray hits
    /// nothing; else what the surface at the closest hit gives off, alone
    /// where it absorbed the ray, and else with the light along the ray that
    /// leaves the hit in the scattered direction, cast at the same moment and
    /// one level deeper.
    pub open spec fn is_radiance<H: Hittable>(&self, result: Radiance, ray: Ray, world: &H, depth: int) -> bool
        where H::Mat: Material
        decreases result,
    {
        if depth >= self.max_depth {
            result == Radiance::Black
        } else {
            match world.hit_spec(ray, self.t_range()) {
                None => result == Radiance::Background(self.background),
                Some(rec) => match result {
                    Radiance::Emitted(emitted) => emitted == rec.material.emit_spec(),
                    Radiance::Scattered { attenuation, scattered, emitted, incoming } => {
                        &&& emitted == rec.material.emit_spec()
                        &&& self.is_radiance(
                            *incoming,
                            Ray { origin: rec.p, direction: scattered, time: ray.time },
                            world,
                            depth + 1,
                        )
                    },
                    _ => false,
                },
            }
        }
    }

    /// The light that comes back along `ray`, cast at `depth` into `world`.
    ///
    /// The ray is tried against `world` from one thousandth up to the far
    /// bound of the camera. What the surface at the hit makes of the ray is
    /// its material's answer, which may be random: `shade` says what follows
    /// from each answer.
    pub fn calc_ray<H: Hittable>(&self, ray: &Ray, world: &H, depth: i32) -> (result: Radiance)
        where H::Mat: Material
        ensures
            self.is_radiance(result, *ray, world, depth as int),
            depth >= self.max_depth ==> result == Radiance::Black,
            depth < self.max_depth && world.hit_spec(*ray, self.t_range()) is None ==> result == Radiance::Background(
                self.background,
            ),
            depth <= self.max_depth ==> result.bounces() <= self.max_depth - depth,
        decreases self.max_depth - depth, 1int,
    {
        if depth >= self.max_depth {
            return Radiance::Black;
        }
        match world.hit(ray, Vec2::new(Scalar::new(NEAR_CLIP_KEY), self.max_ray_range)) {
            Some(rec) => {
                let emitted = rec.material.emit();
                let scatter = rec.material.scatter(ray, &rec);
                self.shade(ray, world, depth, rec.p, emitted, scatter)
            },
            None => Radiance::Background(self.background),
        }
    }

    /// The light off a surface that `ray`, cast at `depth`, met at `p`, where
    /// the surface gives off `emitted` and made `scatter` of the ray: what it
    /// gives off alone where it absorbed the ray; else that, with the weight
    /// and the direction of `scatter`, and with the light that comes back
    /// along the ray that leaves `p` in that direction, cast into `world` at
    /// the moment of `ray` and one level deeper.
    pub fn shade<H: Hittable>(
        &self,
        ray: &Ray,
        world: &H,
        depth: i32,
        p: Point3,
        emitted: Color,
        scatter: Option<ScatterResult>,
    ) -> (result: Radiance)
        where H::Mat: Material
        requires
            depth < self.max_depth,
        ensures
            match scatter {
                None => result == Radiance::Emitted(emitted),
                Some(scatter_result) => match result {
                    Radiance::Scattered { attenuation, scattered, emitted: given_off, incoming } => {
                        &&& attenuation == scatter_result.attenuation
                        &&& scattered == scatter_result.scattered
                        &&& given_off == emitted
                        &&& self.is_radiance(
                            *incoming,
                            Ray { origin: p, direction: scattered, time: ray.time },
                            world,
                            depth + 1,
                        )
                        &&& incoming.bounces() <= self.max_depth - depth - 1
                    },
                    _ => false,
                },
            },
        decreases self.max_depth - depth, 0int,
    {
        match scatter {
            Some(scatter_result) => {
                let next = Ray::new(p, scatter_result.scattered, ray.time);
                let incoming = self.calc_ray(&next, world, depth + 1);
                Radiance::Scattered {
                    attenuation: scatter_result.attenuation,
                    scattered: scatter_result.scattered,
                    emitted,
                    incoming: Box::new(incoming),
                }
            },
            None => Radiance::Emitted(emitted),
        }
    }
}

} // verus!
