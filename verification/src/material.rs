use vstd::prelude::*;
use crate::hittable::HitRecord;
use crate::ray::Ray;
use crate::color::Color;
use crate::vec::{Scalar, Vec3, ONE_KEY};

verus! {

/// What a surface does with a ray that it does not absorb: the share of each
/// colour that it passes on, and the direction in which the ray leaves.
#[derive(Clone, Copy, PartialEq, Eq, Structural, Debug)]
pub struct ScatterResult {
    pub attenuation: Color,
    pub scattered: Vec3,
}

/// What a surface is made of.
///
/// `scatter` may draw random numbers, so nothing is claimed of its answer: two
/// calls on the same hit may differ. `emit` is taken as a function of the
/// material, named by `emit_spec`, which an implementor that is compiled and
/// not verified writes as a call to `emit`.
pub trait Material {
    /// What becomes of `ray` where it met the surface at `record`: `None` where
    /// the surface absorbs it.
    fn scatter<M>(&self, ray: &Ray, record: &HitRecord<M>) -> Option<ScatterResult>;

    /// What `emit` answers.
    spec fn emit_spec(&self) -> Color;

    /// The light that the surface gives off by itself.
    fn emit(&self) -> (color: Color)
        ensures
            color == self.emit_spec(),
    ;
}

/// What a mirror does with a ray: it passes it on along `direction`, weighed
/// by `attenuation`, unless that leads below the surface. `facing` is the
/// product of the direction with the normal of the surface; the ray is
/// absorbed where it is not above zero.
pub fn metal_scatter(attenuation: Color, direction: Vec3, facing: Scalar) -> (result: Option<ScatterResult>)
    ensures
        result == if facing.key > 0 {
            Some(ScatterResult { attenuation, scattered: direction })
        } else {
            None::<ScatterResult>
        },
{
    if facing.key > 0 {
        Some(ScatterResult { attenuation, scattered: direction })
    } else {
        None
    }
}

/// Whether a clear surface mirrors a ray, where it could also let it through:
/// it does where the ray cannot pass, because the ratio of the refractive
/// indices times the sine of the angle of incidence, `ratio_sin_theta`, is
/// above one, and where `draw`, a number drawn from between zero and one, is
/// below `reflectance`.
pub open spec fn dielectric_reflects(ratio_sin_theta: Scalar, draw: Scalar, reflectance: Scalar) -> bool {
    ratio_sin_theta.key > ONE_KEY || draw.key < reflectance.key
}

/// A clear material, such as glass or water: its refractive index, and one
/// divided by it.
#[derive(Clone, Copy, PartialEq, Eq, Structural, Debug)]
pub struct Dielectric {
    pub eta: Scalar,
    pub inverse_eta: Scalar,
}

impl Dielectric {
    /// The material with the refractive index `eta`; `inverse_eta` is one
    /// divided by `eta`, which the caller computes.
    pub fn new(eta: Scalar, inverse_eta: Scalar) -> (d: Self)
        ensures
            d == (Dielectric { eta, inverse_eta }),
    {
        Dielectric { eta, inverse_eta }
    }

    /// The ratio of the refractive indices that a ray meets: one divided by
    /// the index where it enters through the outer side of the surface, and
    /// the index where it leaves.
    pub fn ratio(&self, front_face: bool) -> (r: Scalar)
        ensures
            r == if front_face {
                self.inverse_eta
            } else {
                self.eta
            },
    {
        if front_face {
            self.inverse_eta
        } else {
            self.eta
        }
    }

    /// What the surface does with a ray: it always passes it on, along
    /// `reflected` where `dielectric_reflects` and along `refracted` where
    /// not, and takes nothing from the light either way: the attenuation is
    /// one in each colour.
    pub fn scatter(
        &self,
        ratio_sin_theta: Scalar,
        draw: Scalar,
        reflectance: Scalar,
        reflected: Vec3,
        refracted: Vec3,
    ) -> (result: Option<ScatterResult>)
        ensures
            result == Some(
                ScatterResult {
                    attenuation: Vec3(Scalar { key: ONE_KEY }, Scalar { key: ONE_KEY }, Scalar { key: ONE_KEY }),
                    scattered: if dielectric_reflects(ratio_sin_theta, draw, reflectance) {
                        reflected
                    } else {
                        refracted
                    },
                },
            ),
    {
        let scattered = if ratio_sin_theta.key > ONE_KEY || draw.key < reflectance.key {
            reflected
        } else {
            refracted
        };
        Some(ScatterResult { attenuation: Color::one(), scattered })
    }
}

} // verus!
