use vstd::prelude::*;
use crate::hittable::Hittable;
use crate::ray::Ray;
use crate::vec::{Point3, Scalar, Vec2, Vec3};

verus! {

/// An axis-aligned box: one interval `(min, max)` for each axis.
#[derive(Clone, Copy, PartialEq, Eq, Structural, Debug)]
pub struct AABB {
    pub x_interval: Vec2,
    pub y_interval: Vec2,
    pub z_interval: Vec2,
}

/// What is left of the interval `running` between the two parameters of
/// `crossing`, whichever of the two is the lesser.
pub open spec fn clip(running: Vec2, crossing: Vec2) -> Vec2 {
    Vec2(
        running.0.spec_max(crossing.0.spec_min(crossing.1)),
        running.1.spec_min(crossing.0.spec_max(crossing.1)),
    )
}

/// The two parameters of `outer`, in order, lie around those of `inner`.
pub open spec fn widens(outer: Vec2, inner: Vec2) -> bool {
    &&& outer.0.spec_min(outer.1).key <= inner.0.spec_min(inner.1).key
    &&& inner.0.spec_max(inner.1).key <= outer.0.spec_max(outer.1).key
}

/// For a point that starts at `origin` and moves by `direction`, the
/// divisions of `H` are monotone: the parameters at which it reaches the ends
/// of an interval lie around those at which it reaches the ends of any
/// interval within.
pub open spec fn slab_is_monotone<H: Hittable>(origin: Scalar, direction: Scalar) -> bool {
    forall|outer: Vec2, inner: Vec2|
        outer.0.key <= inner.0.key && inner.0.key <= inner.1.key && inner.1.key <= outer.1.key ==> widens(
            #[trigger] H::slab_spec(outer, origin, direction),
            #[trigger] H::slab_spec(inner, origin, direction),
        )
}

/// The least interval that holds both `a` and `b`.
pub open spec fn interval_union(a: Vec2, b: Vec2) -> Vec2 {
    Vec2(a.0.spec_min(b.0), a.1.spec_max(b.1))
}

impl AABB {
    /// The interval of axis `index`: 0 is x, 1 is y, 2 is z.
    pub open spec fn spec_index(self, index: int) -> Vec2 {
        if index == 0 {
            self.x_interval
        } else if index == 1 {
            self.y_interval
        } else {
            self.z_interval
        }
    }

    /// The interval of axis `index`, which is 0, 1 or 2.
    pub fn index(&self, index: usize) -> (interval: &Vec2)
        requires
            index < 3,
        ensures
            *interval == self.spec_index(index as int),
    {
        if index == 0 {
            &self.x_interval
        } else if index == 1 {
            &self.y_interval
        } else {
            &self.z_interval
        }
    }

    /// No interval of the box has its bounds the wrong way round.
    pub open spec fn is_ordered(self) -> bool {
        &&& self.x_interval.0.key <= self.x_interval.1.key
        &&& self.y_interval.0.key <= self.y_interval.1.key
        &&& self.z_interval.0.key <= self.z_interval.1.key
    }

    /// Every interval of the box has positive width.
    pub open spec fn has_volume(self) -> bool {
        &&& self.x_interval.0.key < self.x_interval.1.key
        &&& self.y_interval.0.key < self.y_interval.1.key
        &&& self.z_interval.0.key < self.z_interval.1.key
    }

    /// Each interval of `other` lies within that of this box.
    pub open spec fn encloses(self, other: AABB) -> bool {
        &&& self.x_interval.0.key <= other.x_interval.0.key && other.x_interval.1.key <= self.x_interval.1.key
        &&& self.y_interval.0.key <= other.y_interval.0.key && other.y_interval.1.key <= self.y_interval.1.key
        &&& self.z_interval.0.key <= other.z_interval.0.key && other.z_interval.1.key <= self.z_interval.1.key
    }

    /// The point `p` lies in the box, faces included.
    pub open spec fn contains(self, p: Point3) -> bool {
        &&& self.x_interval.spec_contains(p.0)
        &&& self.y_interval.spec_contains(p.1)
        &&& self.z_interval.spec_contains(p.2)
    }

    /// The corner that takes the upper bound on the axes chosen and the lower
    /// bound on the others.
    pub open spec fn corner(self, x_high: bool, y_high: bool, z_high: bool) -> Point3 {
        Vec3(
            if x_high { self.x_interval.1 } else { self.x_interval.0 },
            if y_high { self.y_interval.1 } else { self.y_interval.0 },
            if z_high { self.z_interval.1 } else { self.z_interval.0 },
        )
    }

    /// The box whose interval on each axis is the union of those of `a` and `b`.
    pub open spec fn spec_from_aabb(a: AABB, b: AABB) -> AABB {
        AABB {
            x_interval: interval_union(a.x_interval, b.x_interval),
            y_interval: interval_union(a.y_interval, b.y_interval),
            z_interval: interval_union(a.z_interval, b.z_interval),
        }
    }

    /// The union of two boxes: on each axis the lesser of the two lower bounds
    /// and the greater of the two upper bounds.
    pub fn from_aabb(a: &AABB, b: &AABB) -> (u: Self)
        ensures
            u == Self::spec_from_aabb(*a, *b),
            u.encloses(*a),
            u.encloses(*b),
    {
        AABB {
            x_interval: Vec2::new(a.x_interval.0.min(b.x_interval.0), a.x_interval.1.max(b.x_interval.1)),
            y_interval: Vec2::new(a.y_interval.0.min(b.y_interval.0), a.y_interval.1.max(b.y_interval.1)),
            z_interval: Vec2::new(a.z_interval.0.min(b.z_interval.0), a.z_interval.1.max(b.z_interval.1)),
        }
    }

    /// `interval`, or `widened` in its place where `interval` has no width.
    pub open spec fn spec_expand_zero_thickness(interval: Vec2, widened: Vec2) -> Vec2 {
        if interval.0 == interval.1 {
            widened
        } else {
            interval
        }
    }

    /// The box between the corners `a` and `b`, with the interval of `widened`
    /// on each axis on which the two corners agree.
    pub open spec fn spec_new(a: Point3, b: Point3, widened: AABB) -> AABB {
        AABB {
            x_interval: Self::spec_expand_zero_thickness(Vec2(a.0.spec_min(b.0), a.0.spec_max(b.0)), widened.x_interval),
            y_interval: Self::spec_expand_zero_thickness(Vec2(a.1.spec_min(b.1), a.1.spec_max(b.1)), widened.y_interval),
            z_interval: Self::spec_expand_zero_thickness(Vec2(a.2.spec_min(b.2), a.2.spec_max(b.2)), widened.z_interval),
        }
    }

    /// `interval`, unless it has no width: then `widened`, which the caller
    /// has made by moving its two bounds apart by a small amount.
    pub fn expand_zero_thickness(interval: Vec2, widened: Vec2) -> (r: Vec2)
        ensures
            r == Self::spec_expand_zero_thickness(interval, widened),
    {
        if interval.0.key == interval.1.key {
            widened
        } else {
            interval
        }
    }

    /// The box that covers the corners `a` and `b`: on each axis the interval
    /// from the lesser to the greater of their coordinates. A box must not be
    /// flat, so on an axis where the two agree the box takes the interval of
    /// `widened` instead, a box of small positive width around `a` that the
    /// caller supplies.
    pub fn new(a: Point3, b: Point3, widened: &AABB) -> (bbox: Self)
        ensures
            bbox == Self::spec_new(a, b, *widened),
            widened.has_volume() ==> bbox.has_volume(),
            widened.contains(a) ==> bbox.contains(a) && bbox.contains(b),
    {
        AABB {
            x_interval: Self::expand_zero_thickness(Vec2::new(a.0.min(b.0), a.0.max(b.0)), widened.x_interval),
            y_interval: Self::expand_zero_thickness(Vec2::new(a.1.min(b.1), a.1.max(b.1)), widened.y_interval),
            z_interval: Self::expand_zero_thickness(Vec2::new(a.2.min(b.2), a.2.max(b.2)), widened.z_interval),
        }
    }

    /// The parameters at which `ray` crosses the two planes of the box that
    /// bound it on `axis`, as the implementor `H` computes them.
    pub open spec fn crossing<H: Hittable>(self, ray: Ray, axis: int) -> Vec2 {
        H::slab_spec(self.spec_index(axis), ray.origin.spec_index(axis), ray.direction.spec_index(axis))
    }

    /// What is left of `t_range` after it was clipped by the first `axes`
    /// pairs of planes of the box.
    pub open spec fn clipped<H: Hittable>(self, ray: Ray, t_range: Vec2, axes: int) -> Vec2
        decreases axes,
    {
        if axes <= 0 {
            t_range
        } else {
            clip(self.clipped::<H>(ray, t_range, axes - 1), self.crossing::<H>(ray, axes - 1))
        }
    }

    /// The slab test: what is left of `t_range` between the three pairs of
    /// planes of the box has its lower bound strictly below its upper bound.
    pub open spec fn spec_hit<H: Hittable>(self, ray: Ray, t_range: Vec2) -> bool {
        self.clipped::<H>(ray, t_range, 3).0.key < self.clipped::<H>(ray, t_range, 3).1.key
    }

    /// Whether `ray` passes through the box at a parameter in `t_range`, by
    /// the slab test. The divisions are those of `H::slab`.
    pub fn hit<H: Hittable>(&self, ray: &Ray, t_range: Vec2) -> (b: bool)
        ensures
            b == self.spec_hit::<H>(*ray, t_range),
    {
        let mut result = t_range;
        let mut idx: usize = 0;
        while idx < 3
            invariant
                idx <= 3,
                result == self.clipped::<H>(*ray, t_range, idx as int),
                idx > 0 ==> result.0.key < result.1.key,
            decreases 3 - idx,
        {
            let interval = *self.index(idx);
            let t = H::slab(interval, ray.origin.index(idx), ray.direction.index(idx));
            let mut t0 = t.0;
            let mut t1 = t.1;
            if t1.lt(t0) {
                t0 = t.1;
                t1 = t.0;
            }
            result = Vec2::new(result.0.max(t0), result.1.min(t1));
            if result.1.le(result.0) {
                proof {
                    reveal_with_fuel(AABB::clipped, 4);
                }
                return false;
            }
            idx = idx + 1;
        }
        true
    }

    /// The slab test passes exactly where every lower bound lies strictly
    /// below every upper bound: the lower bound of `t_range` and the lesser
    /// crossing of each axis below the upper bound of `t_range` and the
    /// greater crossing of each axis.
    pub proof fn lemma_hit_is_common_interior<H: Hittable>(self, ray: Ray, t_range: Vec2)
        ensures
            self.spec_hit::<H>(ray, t_range) <==> {
                let x = self.crossing::<H>(ray, 0);
                let y = self.crossing::<H>(ray, 1);
                let z = self.crossing::<H>(ray, 2);
                let lower = t_range.0.spec_max(x.0.spec_min(x.1)).spec_max(y.0.spec_min(y.1)).spec_max(z.0.spec_min(z.1));
                let upper = t_range.1.spec_min(x.0.spec_max(x.1)).spec_min(y.0.spec_max(y.1)).spec_min(z.0.spec_max(z.1));
                lower.key < upper.key
            },
    {
        reveal_with_fuel(AABB::clipped, 4);
    }

    /// The slab test of a box that encloses another passes wherever that of
    /// the other does, along a ray for which the divisions are monotone.
    pub proof fn lemma_enclosing_box_is_hit<H: Hittable>(self, inner: AABB, ray: Ray, t_range: Vec2)
        requires
            self.encloses(inner),
            inner.is_ordered(),
            slab_is_monotone::<H>(ray.origin.0, ray.direction.0),
            slab_is_monotone::<H>(ray.origin.1, ray.direction.1),
            slab_is_monotone::<H>(ray.origin.2, ray.direction.2),
            inner.spec_hit::<H>(ray, t_range),
        ensures
            self.spec_hit::<H>(ray, t_range),
    {
        reveal_with_fuel(AABB::clipped, 4);
        assert(widens(self.crossing::<H>(ray, 0), inner.crossing::<H>(ray, 0)));
        assert(widens(self.crossing::<H>(ray, 1), inner.crossing::<H>(ray, 1)));
        assert(widens(self.crossing::<H>(ray, 2), inner.crossing::<H>(ray, 2)));
    }

    /// A union encloses both boxes, and whatever either of them encloses.
    pub proof fn lemma_union_encloses(a: AABB, b: AABB, inner: AABB)
        ensures
            Self::spec_from_aabb(a, b).encloses(a),
            Self::spec_from_aabb(a, b).encloses(b),
            a.encloses(inner) || b.encloses(inner) ==> Self::spec_from_aabb(a, b).encloses(inner),
    {
    }

    /// A union holds every point that either of the two boxes holds.
    pub proof fn lemma_union_contains_points(a: AABB, b: AABB, p: Point3)
        requires
            a.contains(p) || b.contains(p),
        ensures
            Self::spec_from_aabb(a, b).contains(p),
    {
    }

    /// A union holds all eight corners of each of the two boxes, and its own
    /// bounds are in order.
    pub proof fn lemma_union_contains_corners(a: AABB, b: AABB)
        requires
            a.is_ordered(),
            b.is_ordered(),
        ensures
            Self::spec_from_aabb(a, b).is_ordered(),
            forall|x_high: bool, y_high: bool, z_high: bool|
                Self::spec_from_aabb(a, b).contains(#[trigger] a.corner(x_high, y_high, z_high)),
            forall|x_high: bool, y_high: bool, z_high: bool|
                Self::spec_from_aabb(a, b).contains(#[trigger] b.corner(x_high, y_high, z_high)),
    {
    }

    /// The union of two boxes with volume has volume.
    pub proof fn lemma_union_has_volume(a: AABB, b: AABB)
        requires
            a.has_volume() || b.has_volume(),
            a.is_ordered(),
            b.is_ordered(),
        ensures
            Self::spec_from_aabb(a, b).has_volume(),
    {
    }
}

impl Default for AABB {
    /// The box that holds the origin and nothing else.
    fn default() -> (b: Self)
        ensures
            b.x_interval == Vec2(Scalar { key: 0 }, Scalar { key: 0 }),
            b.y_interval == Vec2(Scalar { key: 0 }, Scalar { key: 0 }),
            b.z_interval == Vec2(Scalar { key: 0 }, Scalar { key: 0 }),
    {
        AABB { x_interval: Vec2::zero(), y_interval: Vec2::zero(), z_interval: Vec2::zero() }
    }
}

} // verus!
