use vstd::prelude::*;
use std::sync::Arc;
use crate::aabb::AABB;
use crate::ray::Ray;
use crate::vec::{Point3, Scalar, Vec2, Vec3};

verus! {

/// What a ray found where it met a surface.
///
/// `normal` faces the side the ray came from, `front_face` tells whether that is
/// the outer side of the surface, and `material` is borrowed from the scene.
pub struct HitRecord<'mat, M> {
    pub p: Point3,
    pub normal: Vec3,
    pub t: Scalar,
    pub material: &'mat M,
    pub front_face: bool,
    pub uv: Vec2,
}

impl<'mat, M> HitRecord<'mat, M> {
    /// The record with the given parts.
    pub fn new(
        p: Point3,
        normal: Vec3,
        t: Scalar,
        material: &'mat M,
        front_face: bool,
        uv: Vec2,
    ) -> (rec: Self)
        ensures
            rec == (HitRecord { p, normal, t, material, front_face, uv }),
    {
        HitRecord { p, normal, t, material, front_face, uv }
    }

    /// The record of a hit at `p`, with the normal turned against the ray.
    ///
    /// `outward` is the normal of the surface, `reversed` its opposite, and
    /// `cosine` the product of the ray's direction with `outward`. The ray met
    /// the outer side of the surface where `cosine` is negative: then the
    /// record holds `outward`, and else `reversed`.
    pub fn with_face(
        p: Point3,
        outward: Vec3,
        reversed: Vec3,
        cosine: Scalar,
        t: Scalar,
        material: &'mat M,
        uv: Vec2,
    ) -> (rec: Self)
        ensures
            rec.front_face == (cosine.key < 0),
            rec.normal == if cosine.key < 0 {
                outward
            } else {
                reversed
            },
            rec.p == p,
            rec.t == t,
            rec.material == material,
            rec.uv == uv,
    {
        let front_face = cosine.key < 0;
        HitRecord { p, normal: if front_face { outward } else { reversed }, t, material, front_face, uv }
    }

    /// The record of the same hit on a shape that was moved: the point is
    /// `p`, and all else is as it was, the normal too.
    pub fn moved(self, p: Point3) -> (rec: Self)
        ensures
            rec == (HitRecord { p, ..self }),
    {
        HitRecord { p, ..self }
    }

    /// The record of the same hit on a shape that was turned: the point is
    /// `p` and the normal `normal`, and all else is as it was.
    pub fn turned(self, p: Point3, normal: Vec3) -> (rec: Self)
        ensures
            rec == (HitRecord { p, normal, ..self }),
    {
        HitRecord { p, normal, ..self }
    }
}

/// Something a ray can hit.
///
/// An implementor computes with numbers, which this library does not; the
/// library takes each answer as a function of the arguments, named by the
/// `_spec` function beside each method, and proves what it builds on top of the
/// answers for every such function. An implementor that is compiled and not
/// verified gives each `_spec` function the body of a call to its method.
pub trait Hittable {
    /// The material that the surfaces of this shape are made of.
    type Mat;

    /// What `hit` answers.
    spec fn hit_spec<'a>(&'a self, ray: Ray, t_range: Vec2) -> Option<HitRecord<'a, Self::Mat>>;

    /// The place where `ray` meets the shape at a parameter in `t_range`, if
    /// there is one.
    fn hit<'a>(&'a self, ray: &Ray, t_range: Vec2) -> (rec: Option<HitRecord<'a, Self::Mat>>)
        ensures
            rec == self.hit_spec(*ray, t_range),
    ;

    /// What `bounding_box` answers.
    spec fn bounding_box_spec(&self) -> AABB;

    /// A box around the shape.
    fn bounding_box(&self) -> (bbox: &AABB)
        ensures
            *bbox == self.bounding_box_spec(),
    ;

    /// What `slab` answers.
    spec fn slab_spec(interval: Vec2, origin: Scalar, direction: Scalar) -> Vec2;

    /// The parameters at which a point that starts at `origin` and moves by
    /// `direction` reaches the two ends of `interval` on one axis: for each
    /// end, the end less `origin`, divided by `direction`. A direction of zero
    /// gives an infinite parameter. Where the quotient is undefined, the
    /// answer holds what bounds nothing: minus infinity in the first place,
    /// plus infinity in the second.
    ///
    /// This is the division behind the slab test of a box, which this library
    /// leaves to the implementor as it does all arithmetic.
    fn slab(interval: Vec2, origin: Scalar, direction: Scalar) -> (t: Vec2)
        ensures
            t == Self::slab_spec(interval, origin, direction),
    ;
}

impl<H: Hittable> Hittable for Arc<H> {
    type Mat = H::Mat;

    open spec fn hit_spec<'a>(&'a self, ray: Ray, t_range: Vec2) -> Option<HitRecord<'a, H::Mat>> {
        (**self).hit_spec(ray, t_range)
    }

    fn hit<'a>(&'a self, ray: &Ray, t_range: Vec2) -> (rec: Option<HitRecord<'a, H::Mat>>) {
        (**self).hit(ray, t_range)
    }

    open spec fn bounding_box_spec(&self) -> AABB {
        (**self).bounding_box_spec()
    }

    fn bounding_box(&self) -> (bbox: &AABB) {
        (**self).bounding_box()
    }

    open spec fn slab_spec(interval: Vec2, origin: Scalar, direction: Scalar) -> Vec2 {
        H::slab_spec(interval, origin, direction)
    }

    fn slab(interval: Vec2, origin: Scalar, direction: Scalar) -> (t: Vec2) {
        H::slab(interval, origin, direction)
    }
}

/// The upper bound that is left for the shapes still to be tried: the parameter
/// of the hit found so far, or that of `t_range` where there is none.
pub open spec fn closest_so_far<M>(best: Option<HitRecord<M>>, t_range: Vec2) -> Scalar {
    match best {
        Some(rec) => rec.t,
        None => t_range.1,
    }
}

/// What is kept of the hit found so far, `best`, and the answer of the next
/// shape, `next`: the answer where it is the first or lies strictly before
/// `best`, and else `best`. Of two hits at one parameter the earlier stays.
pub open spec fn keep_closer<'a, M>(best: Option<HitRecord<'a, M>>, next: Option<HitRecord<'a, M>>) -> Option<HitRecord<'a, M>> {
    match (best, next) {
        (Some(b), Some(rec)) => if rec.t.key < b.t.key {
            Some(rec)
        } else {
            Some(b)
        },
        (None, Some(rec)) => Some(rec),
        (_, None) => best,
    }
}

/// What a scan of `items` from first to last finds: each shape is tried over
/// `t_range` with its upper bound lowered to the hit found so far, and a shape
/// that answers strictly before that hit takes its place.
pub open spec fn scan_spec<'a, H: Hittable>(items: Seq<H>, ray: Ray, t_range: Vec2) -> Option<HitRecord<'a, H::Mat>>
    decreases items.len(),
{
    if items.len() == 0 {
        None
    } else {
        let before = scan_spec(items.drop_last(), ray, t_range);
        keep_closer(before, items.last().hit_spec(ray, Vec2(t_range.0, closest_so_far(before, t_range))))
    }
}

/// The closest hit of `ray` among `items`, by a scan from first to last: of
/// several shapes that are hit at the least parameter, the first in the list.
pub fn closest_hit<'a, H: Hittable>(items: &'a [H], ray: &Ray, t_range: Vec2) -> (result: Option<HitRecord<'a, H::Mat>>)
    ensures
        result == scan_spec(items@, *ray, t_range),
{
    let mut result: Option<HitRecord<'a, H::Mat>> = None;
    let mut closest: Scalar = t_range.1;
    let mut i: usize = 0;
    while i < items.len()
        invariant
            i <= items.len(),
            result == scan_spec(items@.take(i as int), *ray, t_range),
            closest == closest_so_far(result, t_range),
        decreases items.len() - i,
    {
        proof {
            assert(items@.take(i + 1).drop_last() =~= items@.take(i as int));
        }
        if let Some(record) = items[i].hit(ray, Vec2::new(t_range.0, closest)) {
            let first = result.is_none();
            if first || record.t.lt(closest) {
                closest = record.t;
                result = Some(record);
            }
        }
        i = i + 1;
    }
    proof {
        assert(items@.take(items@.len() as int) =~= items@);
    }
    result
}

/// The union of the boxes of `items`: the box of the shape where there is
/// one, and else the union of the box of the last with that of those before
/// it. Where there is no shape it is the box that holds only the origin.
pub open spec fn union_of_boxes<H: Hittable>(items: Seq<H>) -> AABB
    decreases items.len(),
{
    if items.len() == 0 {
        AABB {
            x_interval: Vec2(Scalar { key: 0 }, Scalar { key: 0 }),
            y_interval: Vec2(Scalar { key: 0 }, Scalar { key: 0 }),
            z_interval: Vec2(Scalar { key: 0 }, Scalar { key: 0 }),
        }
    } else if items.len() == 1 {
        items.last().bounding_box_spec()
    } else {
        AABB::spec_from_aabb(union_of_boxes(items.drop_last()), items.last().bounding_box_spec())
    }
}

/// The union of the boxes of a list encloses the box of each shape in it.
pub proof fn lemma_union_of_boxes_encloses<H: Hittable>(items: Seq<H>, i: int)
    requires
        0 <= i < items.len(),
    ensures
        union_of_boxes(items).encloses(items[i].bounding_box_spec()),
    decreases items.len(),
{
    let head = items.drop_last();
    if items.len() > 1 {
        AABB::lemma_union_encloses(
            union_of_boxes(head),
            items.last().bounding_box_spec(),
            items[i].bounding_box_spec(),
        );
        if i < items.len() - 1 {
            lemma_union_of_boxes_encloses(head, i);
            assert(head[i] == items[i]);
        }
    }
}

/// A list of shapes, hit by trying each in turn, with a box around them all:
/// the union of their boxes and nothing else.
pub struct HittableList<H> {
    pub list: Vec<Arc<H>>,
    pub bbox: AABB,
}

impl<H: Hittable> HittableList<H> {
    /// The box is the union of the boxes of the shapes. `new` and `push` keep
    /// this; whoever changes `list` by other means may not.
    pub open spec fn wf(&self) -> bool {
        self.bbox == union_of_boxes(self.list@)
    }

    /// The empty list. Its box holds the origin and nothing else, and goes
    /// with the first push.
    pub fn new() -> (l: Self)
        ensures
            l.list@.len() == 0,
            l.wf(),
    {
        HittableList { list: Vec::new(), bbox: AABB::default() }
    }

    /// Appends `value` at the end; the shapes before it stay in place. The box
    /// becomes that of `value` where it is the first shape, and else widens to
    /// hold it. Hands the list back, so that pushes can follow one another.
    pub fn push(&mut self, value: H) -> (again: &mut Self)
        ensures
            again.list@ == old(self).list@.push(Arc::new(value)),
            again.bbox == if old(self).list@.len() == 0 {
                value.bounding_box_spec()
            } else {
                AABB::spec_from_aabb(old(self).bbox, value.bounding_box_spec())
            },
            old(self).wf() ==> again.wf(),
            *final(self) == *final(again),
    {
        self.bbox = if self.list.len() == 0 {
            *value.bounding_box()
        } else {
            AABB::from_aabb(&self.bbox, value.bounding_box())
        };
        self.list.push(Arc::new(value));
        proof {
            assert(self.list@.drop_last() =~= old(self).list@);
        }
        self
    }

    /// The number of shapes.
    pub fn len(&self) -> (n: usize)
        ensures
            n == self.list@.len(),
    {
        self.list.len()
    }

    /// The shape at `index`.
    pub fn index(&self, index: usize) -> (item: &Arc<H>)
        requires
            index < self.list@.len(),
        ensures
            *item == self.list@[index as int],
    {
        &self.list[index]
    }
}

impl<H: Hittable> Hittable for HittableList<H> {
    type Mat = H::Mat;

    open spec fn hit_spec<'a>(&'a self, ray: Ray, t_range: Vec2) -> Option<HitRecord<'a, H::Mat>> {
        scan_spec(self.list@, ray, t_range)
    }

    fn hit<'a>(&'a self, ray: &Ray, t_range: Vec2) -> (rec: Option<HitRecord<'a, H::Mat>>) {
        closest_hit(self.list.as_slice(), ray, t_range)
    }

    open spec fn bounding_box_spec(&self) -> AABB {
        self.bbox
    }

    fn bounding_box(&self) -> (bbox: &AABB) {
        &self.bbox
    }

    open spec fn slab_spec(interval: Vec2, origin: Scalar, direction: Scalar) -> Vec2 {
        H::slab_spec(interval, origin, direction)
    }

    fn slab(interval: Vec2, origin: Scalar, direction: Scalar) -> (t: Vec2) {
        H::slab(interval, origin, direction)
    }
}

/// Whatever range `item` is asked over along `ray`, its answer lies in it.
pub open spec fn answers_in_range<H: Hittable>(item: H, ray: Ray) -> bool {
    forall|t_range: Vec2|
        match #[trigger] item.hit_spec(ray, t_range) {
            Some(rec) => t_range.spec_contains(rec.t),
            None => true,
        }
}

/// Asked along `ray` over a range whose upper bound has come down, `item`
/// gives the answer it gave before where that still fits, and none where it
/// does not: it answers with the first place at which the ray meets it.
pub open spec fn narrows_well<H: Hittable>(item: H, ray: Ray) -> bool {
    forall|lower: Scalar, upper: Scalar, lowered: Scalar|
        lowered.key <= upper.key ==> #[trigger] item.hit_spec(ray, Vec2(lower, lowered)) == (match #[trigger] item.hit_spec(
            ray,
            Vec2(lower, upper),
        ) {
            Some(rec) => if rec.t.key <= lowered.key {
                Some(rec)
            } else {
                None
            },
            None => None,
        })
}

/// `result` is a closest hit among `items` over `t_range`: none where no
/// shape answers over the whole range, and else the answer of one of them
/// that no other answer comes before.
pub open spec fn is_least_hit<H: Hittable>(items: Seq<H>, ray: Ray, t_range: Vec2, result: Option<HitRecord<H::Mat>>) -> bool {
    match result {
        None => forall|i: int| 0 <= i < items.len() ==> (#[trigger] items[i]).hit_spec(ray, t_range) is None,
        Some(rec) => {
            &&& exists|i: int| 0 <= i < items.len() && (#[trigger] items[i]).hit_spec(ray, t_range) == Some(rec)
            &&& forall|i: int| 0 <= i < items.len() ==> match (#[trigger] items[i]).hit_spec(ray, t_range) {
                Some(other) => rec.t.key <= other.t.key,
                None => true,
            }
        },
    }
}

/// Two shapes of `items` that answer over `t_range` at the same parameter
/// give the same answer.
pub open spec fn ties_agree<H: Hittable>(items: Seq<H>, ray: Ray, t_range: Vec2) -> bool {
    forall|i: int, j: int| 0 <= i < items.len() && 0 <= j < items.len() ==> match (
        (#[trigger] items[i]).hit_spec(ray, t_range),
        (#[trigger] items[j]).hit_spec(ray, t_range),
    ) {
        (Some(a), Some(b)) => a.t == b.t ==> a == b,
        _ => true,
    }
}

/// Along `ray`, over the range from `lower` to `upper`, `item` answers at a
/// parameter strictly below `upper`.
pub open spec fn hits_below<H: Hittable>(item: H, ray: Ray, lower: Scalar, upper: Scalar) -> bool {
    match item.hit_spec(ray, Vec2(lower, upper)) {
        Some(rec) => rec.t.key < upper.key,
        None => false,
    }
}

/// Along `ray`, the box of `item` does not hide it: over a range that starts
/// at `lower` and on which `item` answers strictly below the upper bound, the
/// slab test of its box passes.
pub open spec fn box_admits<H: Hittable>(item: H, ray: Ray, lower: Scalar) -> bool {
    forall|upper: Scalar| #[trigger]
        hits_below(item, ray, lower, upper) ==> item.bounding_box_spec().spec_hit::<H>(ray, Vec2(lower, upper))
}

/// A scan answers within the range it was asked over, if each shape does.
pub proof fn lemma_scan_in_range<H: Hittable>(items: Seq<H>, ray: Ray, t_range: Vec2)
    requires
        forall|i: int| 0 <= i < items.len() ==> answers_in_range(#[trigger] items[i], ray),
    ensures
        match scan_spec(items, ray, t_range) {
            Some(rec) => t_range.spec_contains(rec.t),
            None => true,
        },
    decreases items.len(),
{
    if items.len() > 0 {
        let head = items.drop_last();
        assert forall|i: int| 0 <= i < head.len() implies answers_in_range(#[trigger] head[i], ray) by {
            assert(head[i] == items[i]);
        }
        lemma_scan_in_range(head, ray, t_range);
        assert(answers_in_range(items[items.len() - 1], ray));
    }
}

/// A scan finds a closest hit, whatever the order of the list, if each shape
/// answers within the range asked and with the first place the ray meets it.
pub proof fn lemma_scan_finds_least<H: Hittable>(items: Seq<H>, ray: Ray, t_range: Vec2)
    requires
        forall|i: int| 0 <= i < items.len() ==> answers_in_range(#[trigger] items[i], ray),
        forall|i: int| 0 <= i < items.len() ==> narrows_well(#[trigger] items[i], ray),
    ensures
        is_least_hit(items, ray, t_range, scan_spec(items, ray, t_range)),
    decreases items.len(),
{
    if items.len() > 0 {
        let head = items.drop_last();
        let last = items.last();
        let n = items.len() - 1;
        assert forall|i: int| 0 <= i < head.len() implies answers_in_range(#[trigger] head[i], ray) && narrows_well(
            head[i],
            ray,
        ) by {
            assert(head[i] == items[i]);
        }
        lemma_scan_finds_least(head, ray, t_range);
        lemma_scan_in_range(head, ray, t_range);
        let before = scan_spec(head, ray, t_range);
        let lowered = closest_so_far(before, t_range);
        let whole = last.hit_spec(ray, Vec2(t_range.0, t_range.1));
        let asked = last.hit_spec(ray, Vec2(t_range.0, lowered));
        assert(Vec2(t_range.0, t_range.1) == t_range);
        assert(answers_in_range(items[n], ray));
        assert(narrows_well(items[n], ray));
        let result = scan_spec(items, ray, t_range);
        assert forall|i: int| 0 <= i < head.len() implies head[i].hit_spec(ray, t_range) == (#[trigger] items[i]).hit_spec(
            ray,
            t_range,
        ) by {
            assert(head[i] == items[i]);
        }
        match result {
            None => {
                assert forall|i: int| 0 <= i < items.len() implies (#[trigger] items[i]).hit_spec(ray, t_range) is None by {
                    if i < n {
                        assert(head[i].hit_spec(ray, t_range) is None);
                    }
                }
            },
            Some(rec) => {
                if result == before {
                    let k = choose|k: int| 0 <= k < head.len() && (#[trigger] head[k]).hit_spec(ray, t_range) == Some(rec);
                    assert(items[k].hit_spec(ray, t_range) == Some(rec));
                } else {
                    assert(asked == Some(rec));
                    assert(items[n].hit_spec(ray, t_range) == Some(rec));
                }
                assert forall|i: int| 0 <= i < items.len() implies match (#[trigger] items[i]).hit_spec(ray, t_range) {
                    Some(other) => rec.t.key <= other.t.key,
                    None => true,
                } by {
                    if i < n {
                        match before {
                            Some(b) => {
                                assert(match head[i].hit_spec(ray, t_range) {
                                    Some(other) => b.t.key <= other.t.key,
                                    None => true,
                                });
                            },
                            None => {
                                assert(head[i].hit_spec(ray, t_range) is None);
                            },
                        }
                    }
                }
            },
        }
    }
}

/// Closest hits among lists with the same shapes lie at the same parameter,
/// and are the same hit where ties agree.
pub proof fn lemma_least_hits_agree<H: Hittable>(
    one: Seq<H>,
    other: Seq<H>,
    ray: Ray,
    t_range: Vec2,
    hit_one: Option<HitRecord<H::Mat>>,
    hit_other: Option<HitRecord<H::Mat>>,
)
    requires
        forall|x: H| one.contains(x) <==> other.contains(x),
        is_least_hit(one, ray, t_range, hit_one),
        is_least_hit(other, ray, t_range, hit_other),
    ensures
        hit_one is None <==> hit_other is None,
        hit_one is Some ==> hit_one->0.t == hit_other->0.t,
        ties_agree(one, ray, t_range) ==> hit_one == hit_other,
{
    if let Some(a) = hit_one {
        let i = choose|i: int| 0 <= i < one.len() && (#[trigger] one[i]).hit_spec(ray, t_range) == Some(a);
        assert(one.contains(one[i]));
        assert(other.contains(one[i]));
        let i2 = choose|k: int| 0 <= k < other.len() && other[k] == one[i];
        assert(other[i2].hit_spec(ray, t_range) == Some(a));
        if let Some(b) = hit_other {
            let j = choose|j: int| 0 <= j < other.len() && (#[trigger] other[j]).hit_spec(ray, t_range) == Some(b);
            assert(other.contains(other[j]));
            assert(one.contains(other[j]));
            let j2 = choose|k: int| 0 <= k < one.len() && one[k] == other[j];
            assert(one[j2].hit_spec(ray, t_range) == Some(b));
            assert(a.t.key <= b.t.key);
            assert(b.t.key <= a.t.key);
        }
    } else {
        if let Some(b) = hit_other {
            let j = choose|j: int| 0 <= j < other.len() && (#[trigger] other[j]).hit_spec(ray, t_range) == Some(b);
            assert(other.contains(other[j]));
            assert(one.contains(other[j]));
            let j2 = choose|k: int| 0 <= k < one.len() && one[k] == other[j];
            assert(one[j2].hit_spec(ray, t_range) is None);
        }
    }
}

} // verus!
