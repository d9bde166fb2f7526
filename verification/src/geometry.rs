use vstd::prelude::*;
use crate::vec::{Point3, Scalar, Vec2, Vec3, ONE_KEY};

verus! {

/// The key of one hundred-millionth: a ray whose direction has a product with
/// the normal of a plane that is closer to zero than this runs along the
/// plane and does not hit it.
pub const PARALLEL_KEY: i64 = 4487126258331716666;

/// Whether a ray passes a sphere by: `discriminant`, that of the quadratic
/// whose roots are the parameters at which the ray meets the sphere, is below
/// zero, so that there is no root.
pub fn has_no_root(discriminant: Scalar) -> (b: bool)
    ensures
        b == (discriminant.key < 0),
{
    discriminant.key < 0
}

/// The root at which a ray is taken to meet a sphere: `near` where it lies in
/// `t_range`, else `far` where that does, else none.
pub open spec fn first_root_spec(near: Scalar, far: Scalar, t_range: Vec2) -> Option<Scalar> {
    if t_range.spec_contains(near) {
        Some(near)
    } else if t_range.spec_contains(far) {
        Some(far)
    } else {
        None
    }
}

/// Of the two roots of a ray against a sphere, `near` the lesser, the first
/// that lies in `t_range`, ends included.
pub fn first_root_in_range(near: Scalar, far: Scalar, t_range: Vec2) -> (root: Option<Scalar>)
    ensures
        root == first_root_spec(near, far, t_range),
{
    if t_range.contains(near) {
        Some(near)
    } else if t_range.contains(far) {
        Some(far)
    } else {
        None
    }
}

/// Whether a ray runs along a plane: `denominator`, the product of the plane's
/// normal with the ray's direction, lies strictly between minus and plus one
/// hundred-millionth. The key of the negative of a number is the key of the
/// number, negated, less one.
pub fn is_parallel(denominator: Scalar) -> (b: bool)
    ensures
        b == (-PARALLEL_KEY - 1 < denominator.key < PARALLEL_KEY),
{
    -PARALLEL_KEY - 1 < denominator.key && denominator.key < PARALLEL_KEY
}

/// Whether the point of a quad's plane with the planar coordinates `alpha` and
/// `beta` lies on the quad: both are at least zero and at most one.
pub fn inside_unit_square(alpha: Scalar, beta: Scalar) -> (b: bool)
    ensures
        b == (0 <= alpha.key <= ONE_KEY && 0 <= beta.key <= ONE_KEY),
{
    0 <= alpha.key && alpha.key <= ONE_KEY && 0 <= beta.key && beta.key <= ONE_KEY
}

/// `low` and `high` are the least and the greatest value that the points of
/// `points` take on `axis`.
pub open spec fn is_extrema_on(points: Seq<Point3>, low: Point3, high: Point3, axis: int) -> bool {
    &&& forall|i: int|
        0 <= i < points.len() ==> low.spec_index(axis).key <= (#[trigger] points[i]).spec_index(axis).key
            <= high.spec_index(axis).key
    &&& exists|i: int| 0 <= i < points.len() && (#[trigger] points[i]).spec_index(axis) == low.spec_index(axis)
    &&& exists|i: int| 0 <= i < points.len() && (#[trigger] points[i]).spec_index(axis) == high.spec_index(axis)
}

/// `low` and `high` are the least and the greatest value that the points of
/// `points` take on each of the three axes.
pub open spec fn is_extrema(points: Seq<Point3>, low: Point3, high: Point3) -> bool {
    &&& is_extrema_on(points, low, high, 0)
    &&& is_extrema_on(points, low, high, 1)
    &&& is_extrema_on(points, low, high, 2)
}

/// One more point: the extrema of the longer list are the old ones, or the
/// new point's coordinate where that lies beyond them.
proof fn lemma_extrema_step(more: Seq<Point3>, old_low: Point3, old_high: Point3, low: Point3, high: Point3, axis: int)
    requires
        0 <= axis < 3,
        more.len() >= 2,
        is_extrema_on(more.drop_last(), old_low, old_high, axis),
        low.spec_index(axis) == old_low.spec_index(axis).spec_min(more.last().spec_index(axis)),
        high.spec_index(axis) == old_high.spec_index(axis).spec_max(more.last().spec_index(axis)),
    ensures
        is_extrema_on(more, low, high, axis),
{
    let seen = more.drop_last();
    let n = more.len() - 1;
    assert forall|i: int| 0 <= i < more.len() implies low.spec_index(axis).key <= (#[trigger] more[i]).spec_index(axis).key
        <= high.spec_index(axis).key by {
        if i < n {
            assert(seen[i] == more[i]);
        }
    }
    let il = choose|i: int| 0 <= i < seen.len() && (#[trigger] seen[i]).spec_index(axis) == old_low.spec_index(axis);
    let ih = choose|i: int| 0 <= i < seen.len() && (#[trigger] seen[i]).spec_index(axis) == old_high.spec_index(axis);
    assert(more[il] == seen[il]);
    assert(more[ih] == seen[ih]);
    if low.spec_index(axis) == old_low.spec_index(axis) {
        assert(more[il].spec_index(axis) == low.spec_index(axis));
    } else {
        assert(more[n].spec_index(axis) == low.spec_index(axis));
    }
    if high.spec_index(axis) == old_high.spec_index(axis) {
        assert(more[ih].spec_index(axis) == high.spec_index(axis));
    } else {
        assert(more[n].spec_index(axis) == high.spec_index(axis));
    }
}

/// The two corners of the least box around `points`: the least and the
/// greatest value that they take on each axis.
pub fn extrema(points: &Vec<Point3>) -> (corners: (Point3, Point3))
    requires
        points@.len() >= 1,
    ensures
        is_extrema(points@, corners.0, corners.1),
{
    let mut low = points[0];
    let mut high = points[0];
    let mut n: usize = 1;
    proof {
        let first = points@.take(1);
        assert(first[0] == points@[0]);
    }
    while n < points.len()
        invariant
            1 <= n <= points@.len(),
            is_extrema(points@.take(n as int), low, high),
        decreases points@.len() - n,
    {
        let p = points[n];
        let ghost more = points@.take(n + 1);
        let ghost old_low = low;
        let ghost old_high = high;
        low = Vec3::new(low.0.min(p.0), low.1.min(p.1), low.2.min(p.2));
        high = Vec3::new(high.0.max(p.0), high.1.max(p.1), high.2.max(p.2));
        proof {
            assert(more.drop_last() =~= points@.take(n as int));
            assert(more.last() == p);
            lemma_extrema_step(more, old_low, old_high, low, high, 0);
            lemma_extrema_step(more, old_low, old_high, low, high, 1);
            lemma_extrema_step(more, old_low, old_high, low, high, 2);
        }
        n = n + 1;
    }
    proof {
        assert(points@.take(points@.len() as int) =~= points@);
    }
    (low, high)
}

} // verus!
