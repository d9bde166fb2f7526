use vstd::prelude::*;
use crate::vec::{Point3, Scalar, Vec3};

verus! {

/// A ray: where it starts, where it heads, and the moment in `[0, 1]` at which
/// it was cast, by which moving shapes place themselves.
#[derive(Clone, Copy, PartialEq, Eq, Structural, Debug)]
pub struct Ray {
    pub origin: Point3,
    pub direction: Vec3,
    pub time: Scalar,
}

impl Ray {
    /// The ray with the given parts.
    pub fn new(origin: Point3, direction: Vec3, time: Scalar) -> (r: Self)
        ensures
            r == (Ray { origin, direction, time }),
    {
        Ray { origin, direction, time }
    }
}

} // verus!
