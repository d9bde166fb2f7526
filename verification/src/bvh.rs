use vstd::prelude::*;
use vstd::arithmetic::power2::pow2;
use std::sync::Arc;
use crate::aabb::AABB;
use crate::aabb::slab_is_monotone;
use crate::hittable::{
    answers_in_range, box_admits, closest_so_far, hits_below, is_least_hit, lemma_least_hits_agree,
    lemma_scan_finds_least, narrows_well, scan_spec, ties_agree, HitRecord, Hittable,
};
use crate::random::m_random_range;
use crate::ray::Ray;
use crate::sort::{axis_key, lemma_sort_is_permutation, lemma_sort_is_sorted, sort_by_axis, sort_spec};
use crate::vec::{Scalar, Vec2};

verus! {

/// One side of a node: a shape of the scene, or a node over several.
pub enum BvhChild<H> {
    Leaf(Arc<H>),
    Node(Box<BvhNode<H>>),
}

/// A node of a bounding-volume hierarchy: two children and a box around both.
pub struct BvhNode<H> {
    pub bbox: AABB,
    pub left: BvhChild<H>,
    pub right: BvhChild<H>,
}

/// The range that is left for the right child once the left child has
/// answered: its upper bound comes down to the left hit, where there is one.
pub open spec fn narrow_spec<M>(t_range: Vec2, hit_left: Option<HitRecord<M>>) -> Vec2 {
    Vec2(t_range.0, closest_so_far(hit_left, t_range))
}

/// Of the answers of the two children, the one that the node gives: the only
/// one where one child missed, and else the right one where its parameter is
/// strictly the lesser, and the left one where it is not. Of two hits at one
/// parameter the left one stays.
pub open spec fn closer_spec<'a, M>(hit_left: Option<HitRecord<'a, M>>, hit_right: Option<HitRecord<'a, M>>) -> Option<HitRecord<'a, M>> {
    match (hit_left, hit_right) {
        (None, None) => None,
        (Some(rec), None) => Some(rec),
        (None, Some(rec)) => Some(rec),
        (Some(left_rec), Some(right_rec)) => if right_rec.t.key < left_rec.t.key {
            Some(right_rec)
        } else {
            Some(left_rec)
        },
    }
}

/// The range over which the right child is tried after the left child gave
/// `hit_left`.
pub fn narrow<'a, M>(t_range: Vec2, hit_left: &Option<HitRecord<'a, M>>) -> (r: Vec2)
    ensures
        r == narrow_spec(t_range, *hit_left),
{
    match hit_left {
        Some(rec) => Vec2::new(t_range.0, rec.t),
        None => t_range,
    }
}

/// The answer of a node whose children gave `hit_left` and `hit_right`.
pub fn closer<'a, M>(hit_left: Option<HitRecord<'a, M>>, hit_right: Option<HitRecord<'a, M>>) -> (r: Option<HitRecord<'a, M>>)
    ensures
        r == closer_spec(hit_left, hit_right),
{
    match (hit_left, hit_right) {
        (None, None) => None,
        (Some(rec), None) => Some(rec),
        (None, Some(rec)) => Some(rec),
        (Some(left_rec), Some(right_rec)) => {
            if right_rec.t.lt(left_rec.t) {
                Some(right_rec)
            } else {
                Some(left_rec)
            }
        },
    }
}

impl<H: Hittable> BvhChild<H> {
    /// The shapes below this child, from left to right.
    pub open spec fn leaves(&self) -> Seq<Arc<H>>
        decreases self,
    {
        match self {
            BvhChild::Leaf(h) => seq![*h],
            BvhChild::Node(n) => n.leaves(),
        }
    }

    /// What `hit` answers.
    pub open spec fn hit_spec<'a>(&'a self, ray: Ray, t_range: Vec2) -> Option<HitRecord<'a, H::Mat>>
        decreases self,
    {
        match self {
            BvhChild::Leaf(h) => h.hit_spec(ray, t_range),
            BvhChild::Node(n) => n.traverse_spec(ray, t_range),
        }
    }

    /// The box of the shape, or of the node.
    pub open spec fn bounding_box_spec(&self) -> AABB {
        match self {
            BvhChild::Leaf(h) => h.bounding_box_spec(),
            BvhChild::Node(n) => n.bbox,
        }
    }

    /// The closest hit of `ray` below this child.
    pub fn hit<'a>(&'a self, ray: &Ray, t_range: Vec2) -> (rec: Option<HitRecord<'a, H::Mat>>)
        ensures
            rec == self.hit_spec(*ray, t_range),
        decreases self,
    {
        match self {
            BvhChild::Leaf(h) => h.hit(ray, t_range),
            BvhChild::Node(n) => n.traverse(ray, t_range),
        }
    }

    /// The box of the shape, or of the node.
    pub fn bounding_box(&self) -> (bbox: &AABB)
        ensures
            *bbox == self.bounding_box_spec(),
    {
        match self {
            BvhChild::Leaf(h) => h.bounding_box(),
            BvhChild::Node(n) => &n.bbox,
        }
    }
}

impl<H: Hittable> BvhNode<H> {
    /// The shapes below this node, from left to right.
    pub open spec fn leaves(&self) -> Seq<Arc<H>>
        decreases self,
    {
        self.left.leaves() + self.right.leaves()
    }

    /// What the traversal answers: nothing where the slab test of the node's
    /// box fails, and else the closer of the answer of the left child over
    /// `t_range` and that of the right child over the range narrowed by it.
    pub open spec fn traverse_spec<'a>(&'a self, ray: Ray, t_range: Vec2) -> Option<HitRecord<'a, H::Mat>>
        decreases self,
    {
        if !self.bbox.spec_hit::<H>(ray, t_range) {
            None
        } else {
            let hit_left = self.left.hit_spec(ray, t_range);
            let hit_right = self.right.hit_spec(ray, narrow_spec(t_range, hit_left));
            closer_spec(hit_left, hit_right)
        }
    }

    /// The traversal behind `hit`.
    pub fn traverse<'a>(&'a self, ray: &Ray, t_range: Vec2) -> (rec: Option<HitRecord<'a, H::Mat>>)
        ensures
            rec == self.traverse_spec(*ray, t_range),
        decreases self,
    {
        if !self.bbox.hit::<H>(ray, t_range) {
            return None;
        }
        let hit_left = self.left.hit(ray, t_range);
        let new_t_range = narrow(t_range, &hit_left);
        let hit_right = self.right.hit(ray, new_t_range);
        closer(hit_left, hit_right)
    }
}

impl<H: Hittable> Hittable for BvhNode<H> {
    type Mat = H::Mat;

    open spec fn hit_spec<'a>(&'a self, ray: Ray, t_range: Vec2) -> Option<HitRecord<'a, H::Mat>> {
        self.traverse_spec(ray, t_range)
    }

    fn hit<'a>(&'a self, ray: &Ray, t_range: Vec2) -> (rec: Option<HitRecord<'a, H::Mat>>) {
        self.traverse(ray, t_range)
    }

    open spec fn bounding_box_spec(&self) -> AABB {
        self.bbox
    }

    fn bounding_box(&self) -> (bbox: &AABB) {
        &self.bbox
    }

    open spec fn slab_spec(interval: Vec2, origin: Scalar, direction: Scalar) -> Vec2 {
        H::slab_spec(interval, origin, direction)
    }

    fn slab(interval: Vec2, origin: Scalar, direction: Scalar) -> (t: Vec2) {
        H::slab(interval, origin, direction)
    }
}

/// `after` is how a build whose first sort is on `axis` leaves the list
/// `before`: sorted on `axis`, and, where more than two shapes are in it, each
/// half of the sorted list left in turn as a build on some axis leaves it.
pub open spec fn arranged_on<H: Hittable>(after: Seq<Arc<H>>, before: Seq<Arc<H>>, axis: int) -> bool
    decreases after.len(),
{
    let sorted = sort_spec(before, axis);
    let half = after.len() / 2;
    if after.len() != before.len() {
        false
    } else if after.len() <= 2 {
        after == sorted
    } else {
        &&& (arranged_on(after.take(half as int), sorted.take(half as int), 0)
            || arranged_on(after.take(half as int), sorted.take(half as int), 1)
            || arranged_on(after.take(half as int), sorted.take(half as int), 2))
        &&& (arranged_on(after.skip(half as int), sorted.skip(half as int), 0)
            || arranged_on(after.skip(half as int), sorted.skip(half as int), 1)
            || arranged_on(after.skip(half as int), sorted.skip(half as int), 2))
    }
}

/// `after` is how a build leaves the list `before`, whatever axes it drew.
pub open spec fn arranged<H: Hittable>(after: Seq<Arc<H>>, before: Seq<Arc<H>>) -> bool {
    arranged_on(after, before, 0) || arranged_on(after, before, 1) || arranged_on(after, before, 2)
}

/// `node` is the hierarchy over the list `s`: one shape on both sides where
/// `s` holds one, a shape on each side where it holds two, and else a node
/// over the first half of `s` on the left and one over the rest on the right,
/// the midpoint rounded down; and its box is the union of its children's.
pub open spec fn built_over<H: Hittable>(node: BvhNode<H>, s: Seq<Arc<H>>) -> bool
    decreases s.len(),
{
    let half = s.len() / 2;
    &&& node.bbox == AABB::spec_from_aabb(node.left.bounding_box_spec(), node.right.bounding_box_spec())
    &&& if s.len() == 1 {
        node.left == BvhChild::Leaf(s[0]) && node.right == BvhChild::Leaf(s[0])
    } else if s.len() == 2 {
        node.left == BvhChild::Leaf(s[0]) && node.right == BvhChild::Leaf(s[1])
    } else if s.len() > 2 {
        match (node.left, node.right) {
            (BvhChild::Node(l), BvhChild::Node(r)) => built_over(*l, s.take(half as int)) && built_over(
                *r,
                s.skip(half as int),
            ),
            _ => false,
        }
    } else {
        false
    }
}

impl<H: Hittable> BvhNode<H> {
    /// Builds the hierarchy over the shapes of `list`, which it reorders: the
    /// list is sorted on an axis drawn at random, and, where more than two
    /// shapes are in it, each half is built in turn in the same way.
    pub fn new(list: &mut [Arc<H>]) -> (node: Self)
        requires
            old(list)@.len() >= 1,
        ensures
            built_over(node, final(list)@),
            arranged(final(list)@, old(list)@),
        decreases old(list)@.len(), 1int,
    {
        let axis = m_random_range(0, 3);
        Self::with_axis(list, axis)
    }

    /// `new`, with the axis of the first sort given: 0 is x, 1 is y, 2 is z.
    pub fn with_axis(list: &mut [Arc<H>], axis: usize) -> (node: Self)
        requires
            old(list)@.len() >= 1,
            axis < 3,
        ensures
            built_over(node, final(list)@),
            arranged_on(final(list)@, old(list)@, axis as int),
        decreases old(list)@.len(), 0int,
    {
        sort_by_axis(list, axis);
        proof {
            lemma_sort_is_permutation(old(list)@, axis as int);
        }
        let ghost sorted = list@;
        let len = list.len();
        let left: BvhChild<H>;
        let right: BvhChild<H>;
        if len == 1 {
            left = BvhChild::Leaf(list[0].clone());
            right = BvhChild::Leaf(list[0].clone());
        } else if len == 2 {
            left = BvhChild::Leaf(list[0].clone());
            right = BvhChild::Leaf(list[1].clone());
        } else {
            let half = len / 2;
            let (left_list, right_list) = list.split_at_mut(half);
            assert(left_list@ =~= sorted.take(half as int));
            assert(right_list@ =~= sorted.skip(half as int));
            let left_node = BvhNode::new(left_list);
            let right_node = BvhNode::new(right_list);
            proof {
                assert(final(left_list)@.len() == half);
                assert(final(right_list)@.len() == len - half);
                assert(final(list)@.take(half as int) =~= final(left_list)@);
                assert(final(list)@.skip(half as int) =~= final(right_list)@);
                assert(sorted == sort_spec(old(list)@, axis as int));
            }
            left = BvhChild::Node(Box::new(left_node));
            right = BvhChild::Node(Box::new(right_node));
        }
        let bbox = AABB::from_aabb(left.bounding_box(), right.bounding_box());
        BvhNode { bbox, left, right }
    }
}

/// The shapes below a hierarchy over `s`, from left to right: those of `s`
/// in their order, with a shape that is alone on its node there twice.
pub open spec fn leaves_of_run<T>(s: Seq<T>) -> Seq<T>
    decreases s.len(),
{
    let half = s.len() / 2;
    if s.len() <= 1 {
        s + s
    } else if s.len() == 2 {
        s
    } else {
        leaves_of_run(s.take(half as int)) + leaves_of_run(s.skip(half as int))
    }
}

impl<H: Hittable> BvhChild<H> {
    /// The number of nodes on the longest way down from here to a shape.
    pub open spec fn height(&self) -> nat
        decreases self,
    {
        match self {
            BvhChild::Leaf(_) => 0,
            BvhChild::Node(n) => n.height(),
        }
    }

    /// `boxes_admit` of the node, where this child is one.
    pub open spec fn boxes_admit(&self, ray: Ray, lower: Scalar) -> bool
        decreases self,
    {
        match self {
            BvhChild::Leaf(_) => true,
            BvhChild::Node(n) => n.boxes_admit(ray, lower),
        }
    }
}

impl<H: Hittable> BvhNode<H> {
    /// The number of nodes on the longest way down from this node to a shape,
    /// the node itself counted.
    pub open spec fn height(&self) -> nat
        decreases self,
    {
        if self.left.height() >= self.right.height() {
            1 + self.left.height()
        } else {
            1 + self.right.height()
        }
    }

    /// Along `ray` no box of the hierarchy hides a hit: over a range that
    /// starts at `lower` and on which a shape below a node answers strictly
    /// below the upper bound, the slab test of that node's box passes.
    pub open spec fn boxes_admit(&self, ray: Ray, lower: Scalar) -> bool
        decreases self,
    {
        &&& forall|upper: Scalar, i: int|
            0 <= i < self.leaves().len() && #[trigger] hits_below(self.leaves()[i], ray, lower, upper)
                ==> self.bbox.spec_hit::<H>(ray, Vec2(lower, upper))
        &&& self.left.boxes_admit(ray, lower)
        &&& self.right.boxes_admit(ray, lower)
    }
}

/// The shapes below a hierarchy over `s` are those of `leaves_of_run`.
pub proof fn lemma_built_leaves<H: Hittable>(node: BvhNode<H>, s: Seq<Arc<H>>)
    requires
        built_over(node, s),
    ensures
        node.leaves() == leaves_of_run(s),
    decreases s.len(),
{
    let half = (s.len() / 2) as int;
    if s.len() == 1 {
        assert(node.leaves() =~= s + s);
    } else if s.len() == 2 {
        assert(node.leaves() =~= s);
    } else {
        match (node.left, node.right) {
            (BvhChild::Node(l), BvhChild::Node(r)) => {
                lemma_built_leaves(*l, s.take(half));
                lemma_built_leaves(*r, s.skip(half));
            },
            _ => {},
        }
    }
}

/// `leaves_of_run` holds the shapes of `s` and no others.
pub proof fn lemma_run_members<T>(s: Seq<T>, x: T)
    ensures
        leaves_of_run(s).contains(x) <==> s.contains(x),
    decreases s.len(),
{
    let half = (s.len() / 2) as int;
    if s.len() <= 1 {
        if (s + s).contains(x) {
            let i = choose|i: int| 0 <= i < (s + s).len() && (s + s)[i] == x;
            assert(s[0] == x);
        }
        if s.contains(x) {
            assert((s + s)[0] == x);
        }
    } else if s.len() == 2 {
    } else {
        let a = s.take(half);
        let b = s.skip(half);
        lemma_run_members(a, x);
        lemma_run_members(b, x);
        let la = leaves_of_run(a);
        let lb = leaves_of_run(b);
        if (la + lb).contains(x) {
            let i = choose|i: int| 0 <= i < (la + lb).len() && (la + lb)[i] == x;
            if i < la.len() {
                assert(la[i] == x);
                assert(la.contains(x));
                let k = choose|k: int| 0 <= k < a.len() && a[k] == x;
                assert(s[k] == x);
            } else {
                assert(lb[i - la.len()] == x);
                assert(lb.contains(x));
                let k = choose|k: int| 0 <= k < b.len() && b[k] == x;
                assert(s[k + half] == x);
            }
        }
        if s.contains(x) {
            let k = choose|k: int| 0 <= k < s.len() && s[k] == x;
            if k < half {
                assert(a[k] == x);
                assert(a.contains(x));
                let i = choose|i: int| 0 <= i < la.len() && la[i] == x;
                assert((la + lb)[i] == x);
            } else {
                assert(b[k - half] == x);
                assert(b.contains(x));
                let i = choose|i: int| 0 <= i < lb.len() && lb[i] == x;
                assert((la + lb)[i + la.len()] == x);
            }
        }
    }
}

/// The box of a hierarchy over `s` encloses the box of each shape of `s`.
pub proof fn lemma_built_box_encloses<H: Hittable>(node: BvhNode<H>, s: Seq<Arc<H>>, i: int)
    requires
        built_over(node, s),
        0 <= i < s.len(),
    ensures
        node.bbox.encloses(s[i].bounding_box_spec()),
    decreases s.len(),
{
    let half = (s.len() / 2) as int;
    let inner = s[i].bounding_box_spec();
    AABB::lemma_union_encloses(node.left.bounding_box_spec(), node.right.bounding_box_spec(), inner);
    if s.len() > 2 {
        match (node.left, node.right) {
            (BvhChild::Node(l), BvhChild::Node(r)) => {
                if i < half {
                    lemma_built_box_encloses(*l, s.take(half), i);
                } else {
                    lemma_built_box_encloses(*r, s.skip(half), i - half);
                }
            },
            _ => {},
        }
    }
}

/// A hierarchy is balanced: over two shapes or more, two to the power of its
/// height less one is below the number of shapes.
pub proof fn lemma_built_height<H: Hittable>(node: BvhNode<H>, s: Seq<Arc<H>>)
    requires
        built_over(node, s),
    ensures
        s.len() <= 2 ==> node.height() == 1,
        s.len() >= 3 ==> pow2((node.height() - 1) as nat) <= s.len() - 1,
        s.len() >= 2 ==> pow2((node.height() - 1) as nat) < s.len(),
    decreases s.len(),
{
    let half = (s.len() / 2) as int;
    vstd::arithmetic::power2::lemma2_to64();
    if s.len() > 2 {
        match (node.left, node.right) {
            (BvhChild::Node(l), BvhChild::Node(r)) => {
                lemma_built_height(*l, s.take(half));
                lemma_built_height(*r, s.skip(half));
                let deeper = if l.height() >= r.height() { l.height() } else { r.height() };
                assert(node.height() == 1 + deeper);
                vstd::arithmetic::power2::lemma_pow2_unfold(deeper);
                // the deeper side holds at most the greater half of the shapes
                if s.len() >= 5 {
                    assert(pow2((deeper - 1) as nat) <= s.len() - half - 1);
                } else {
                    assert(deeper == 1);
                }
            },
            _ => {},
        }
    }
}

/// A build keeps the shapes of the list: each is in it as often as before.
pub proof fn lemma_arranged_permutes<H: Hittable>(after: Seq<Arc<H>>, before: Seq<Arc<H>>)
    requires
        arranged(after, before),
    ensures
        after.to_multiset() == before.to_multiset(),
    decreases after.len(), 1int,
{
    if arranged_on(after, before, 0) {
        lemma_arranged_on_permutes(after, before, 0);
    } else if arranged_on(after, before, 1) {
        lemma_arranged_on_permutes(after, before, 1);
    } else {
        lemma_arranged_on_permutes(after, before, 2);
    }
}

/// `lemma_arranged_permutes`, with the axis of the first sort given.
pub proof fn lemma_arranged_on_permutes<H: Hittable>(after: Seq<Arc<H>>, before: Seq<Arc<H>>, axis: int)
    requires
        arranged_on(after, before, axis),
    ensures
        after.to_multiset() == before.to_multiset(),
    decreases after.len(), 0int,
{
    let sorted = sort_spec(before, axis);
    let half = (after.len() / 2) as int;
    lemma_sort_is_permutation(before, axis);
    if after.len() > 2 {
        lemma_arranged_permutes(after.take(half), sorted.take(half));
        lemma_arranged_permutes(after.skip(half), sorted.skip(half));
        vstd::seq_lib::lemma_multiset_commutative(after.take(half), after.skip(half));
        vstd::seq_lib::lemma_multiset_commutative(sorted.take(half), sorted.skip(half));
        assert(after.take(half) + after.skip(half) =~= after);
        assert(sorted.take(half) + sorted.skip(half) =~= sorted);
    }
}

/// A build on `axis` splits the list at its midpoint by the shapes' keys on
/// that axis: no shape of the first half comes after one of the second half.
pub proof fn lemma_arranged_splits<H: Hittable>(after: Seq<Arc<H>>, before: Seq<Arc<H>>, axis: int, i: int, j: int)
    requires
        arranged_on(after, before, axis),
        after.len() >= 2,
        0 <= i < after.len() / 2,
        after.len() / 2 <= j < after.len(),
    ensures
        axis_key(after[i], axis) <= axis_key(after[j], axis),
{
    broadcast use vstd::seq_lib::group_to_multiset_ensures;
    let sorted = sort_spec(before, axis);
    let half = (after.len() / 2) as int;
    lemma_sort_is_permutation(before, axis);
    lemma_sort_is_sorted(before, axis);
    if after.len() == 2 {
    } else {
        let a = after.take(half);
        let b = after.skip(half);
        let sa = sorted.take(half);
        let sb = sorted.skip(half);
        lemma_arranged_permutes(a, sa);
        lemma_arranged_permutes(b, sb);
        assert(a[i] == after[i]);
        assert(b[j - half] == after[j]);
        assert(a.contains(after[i]));
        assert(b.contains(after[j]));
        assert(sa.to_multiset().count(after[i]) > 0);
        assert(sb.to_multiset().count(after[j]) > 0);
        assert(sa.contains(after[i]));
        assert(sb.contains(after[j]));
        let k = choose|k: int| 0 <= k < sa.len() && sa[k] == after[i];
        let m = choose|m: int| 0 <= m < sb.len() && sb[m] == after[j];
        assert(sorted[k] == after[i]);
        assert(sorted[m + half] == after[j]);
    }
}

/// The traversal of a hierarchy finds a closest hit among the shapes below
/// it, and finds one wherever a shape answers strictly below the upper bound.
/// This holds along a ray for which no box hides a hit and each shape answers
/// within the range asked and with the first place the ray meets it.
pub proof fn lemma_traverse_finds_least<H: Hittable>(node: BvhNode<H>, ray: Ray, lower: Scalar, upper: Scalar)
    requires
        node.boxes_admit(ray, lower),
        forall|i: int| 0 <= i < node.leaves().len() ==> answers_in_range(#[trigger] node.leaves()[i], ray),
        forall|i: int| 0 <= i < node.leaves().len() ==> narrows_well(#[trigger] node.leaves()[i], ray),
    ensures
        node.traverse_spec(ray, Vec2(lower, upper)) is Some ==> is_least_hit(
            node.leaves(),
            ray,
            Vec2(lower, upper),
            node.traverse_spec(ray, Vec2(lower, upper)),
        ),
        node.traverse_spec(ray, Vec2(lower, upper)) is None ==> forall|i: int|
            0 <= i < node.leaves().len() ==> !hits_below(#[trigger] node.leaves()[i], ray, lower, upper),
    decreases node,
{
    let range = Vec2(lower, upper);
    let lefts = node.left.leaves();
    let rights = node.right.leaves();
    let all = node.leaves();
    assert forall|i: int| 0 <= i < lefts.len() implies answers_in_range(#[trigger] lefts[i], ray) && narrows_well(
        lefts[i],
        ray,
    ) by {
        assert(lefts[i] == all[i]);
    }
    assert forall|i: int| 0 <= i < rights.len() implies answers_in_range(#[trigger] rights[i], ray) && narrows_well(
        rights[i],
        ray,
    ) by {
        assert(rights[i] == all[i + lefts.len()]);
    }
    if !node.bbox.spec_hit::<H>(ray, range) {
    } else {
        let hit_left = node.left.hit_spec(ray, range);
        lemma_child_finds_least(node.left, ray, lower, upper);
        let lowered = closest_so_far(hit_left, range);
        let hit_right = node.right.hit_spec(ray, Vec2(lower, lowered));
        lemma_child_finds_least(node.right, ray, lower, lowered);
        let found = closer_spec(hit_left, hit_right);
        assert(found == node.traverse_spec(ray, range));
        match (hit_left, hit_right) {
            (None, None) => {
                assert forall|i: int| 0 <= i < all.len() implies !hits_below(#[trigger] all[i], ray, lower, upper) by {
                    if i < lefts.len() {
                        assert(all[i] == lefts[i]);
                    } else {
                        assert(all[i] == rights[i - lefts.len()]);
                    }
                }
            },
            (Some(a), None) => {
                let k = choose|k: int| 0 <= k < lefts.len() && (#[trigger] lefts[k]).hit_spec(ray, range) == Some(a);
                assert(all[k] == lefts[k]);
                assert(answers_in_range(lefts[k], ray));
                assert(a.t.key <= upper.key);
                assert forall|i: int| 0 <= i < all.len() implies match (#[trigger] all[i]).hit_spec(ray, range) {
                    Some(other) => a.t.key <= other.t.key,
                    None => true,
                } by {
                    if i < lefts.len() {
                        assert(all[i] == lefts[i]);
                    } else {
                        let x = rights[i - lefts.len()];
                        assert(all[i] == x);
                        assert(narrows_well(x, ray));
                        if let Some(other) = x.hit_spec(ray, Vec2(lower, upper)) {
                            if other.t.key < a.t.key {
                                assert(x.hit_spec(ray, Vec2(lower, a.t)) == Some(other));
                                assert(hits_below(x, ray, lower, a.t));
                            }
                        }
                    }
                }
            },
            (None, Some(b)) => {
                let k = choose|k: int| 0 <= k < rights.len() && (#[trigger] rights[k]).hit_spec(ray, range) == Some(b);
                assert(all[k + lefts.len()] == rights[k]);
                assert(answers_in_range(rights[k], ray));
                assert(b.t.key <= upper.key);
                assert forall|i: int| 0 <= i < all.len() implies match (#[trigger] all[i]).hit_spec(ray, range) {
                    Some(other) => b.t.key <= other.t.key,
                    None => true,
                } by {
                    if i < lefts.len() {
                        assert(all[i] == lefts[i]);
                        assert(!hits_below(lefts[i], ray, lower, upper));
                    } else {
                        assert(all[i] == rights[i - lefts.len()]);
                    }
                }
            },
            (Some(a), Some(b)) => {
                let ka = choose|k: int| 0 <= k < lefts.len() && (#[trigger] lefts[k]).hit_spec(ray, range) == Some(a);
                assert(all[ka] == lefts[ka]);
                assert(answers_in_range(lefts[ka], ray));
                assert(a.t.key <= upper.key);
                let narrowed = Vec2(lower, a.t);
                let k = choose|k: int| 0 <= k < rights.len() && (#[trigger] rights[k]).hit_spec(ray, narrowed) == Some(b);
                let x = rights[k];
                assert(answers_in_range(x, ray));
                assert(b.t.key <= a.t.key);
                assert(narrows_well(x, ray));
                assert(x.hit_spec(ray, Vec2(lower, upper)) == Some(b));
                assert(all[k + lefts.len()] == x);
                let kept = if b.t.key < a.t.key { b } else { a };
                assert(found == Some(kept));
                assert forall|i: int| 0 <= i < all.len() implies match (#[trigger] all[i]).hit_spec(ray, range) {
                    Some(other) => kept.t.key <= other.t.key,
                    None => true,
                } by {
                    if i < lefts.len() {
                        assert(all[i] == lefts[i]);
                    } else {
                        let y = rights[i - lefts.len()];
                        assert(all[i] == y);
                        assert(narrows_well(y, ray));
                        if let Some(other) = y.hit_spec(ray, Vec2(lower, upper)) {
                            if other.t.key <= a.t.key {
                                assert(y.hit_spec(ray, Vec2(lower, a.t)) == Some(other));
                            }
                        }
                    }
                }
            },
        }
    }
}

/// `lemma_traverse_finds_least`, of one side of a node.
pub proof fn lemma_child_finds_least<H: Hittable>(child: BvhChild<H>, ray: Ray, lower: Scalar, upper: Scalar)
    requires
        child.boxes_admit(ray, lower),
        forall|i: int| 0 <= i < child.leaves().len() ==> answers_in_range(#[trigger] child.leaves()[i], ray),
        forall|i: int| 0 <= i < child.leaves().len() ==> narrows_well(#[trigger] child.leaves()[i], ray),
    ensures
        child.hit_spec(ray, Vec2(lower, upper)) is Some ==> is_least_hit(
            child.leaves(),
            ray,
            Vec2(lower, upper),
            child.hit_spec(ray, Vec2(lower, upper)),
        ),
        child.hit_spec(ray, Vec2(lower, upper)) is None ==> forall|i: int|
            0 <= i < child.leaves().len() ==> !hits_below(#[trigger] child.leaves()[i], ray, lower, upper),
    decreases child,
{
    match child {
        BvhChild::Leaf(h) => {
            assert(child.leaves()[0] == h);
        },
        BvhChild::Node(n) => {
            assert(child.leaves() == n.leaves());
            lemma_traverse_finds_least(*n, ray, lower, upper);
        },
    }
}

/// No box of a hierarchy hides a hit, if the box of no shape hides that
/// shape, the bounds of each shape's box are in order, and the divisions of
/// the slab test are monotone along the ray.
pub proof fn lemma_built_boxes_admit<H: Hittable>(node: BvhNode<H>, s: Seq<Arc<H>>, ray: Ray, lower: Scalar)
    requires
        built_over(node, s),
        forall|i: int| 0 <= i < s.len() ==> box_admits(#[trigger] s[i], ray, lower),
        forall|i: int| 0 <= i < s.len() ==> (#[trigger] s[i]).bounding_box_spec().is_ordered(),
        slab_is_monotone::<H>(ray.origin.0, ray.direction.0),
        slab_is_monotone::<H>(ray.origin.1, ray.direction.1),
        slab_is_monotone::<H>(ray.origin.2, ray.direction.2),
    ensures
        node.boxes_admit(ray, lower),
    decreases s.len(),
{
    let half = (s.len() / 2) as int;
    let leaves = node.leaves();
    lemma_built_leaves(node, s);
    assert forall|upper: Scalar, i: int|
        0 <= i < leaves.len() && #[trigger] hits_below(leaves[i], ray, lower, upper) implies node.bbox.spec_hit::<H>(
        ray,
        Vec2(lower, upper),
    ) by {
        lemma_run_members(s, leaves[i]);
        assert(leaves.contains(leaves[i]));
        let k = choose|k: int| 0 <= k < s.len() && s[k] == leaves[i];
        let inner = s[k].bounding_box_spec();
        assert(box_admits(s[k], ray, lower));
        assert(hits_below(s[k], ray, lower, upper));
        assert(inner.spec_hit::<Arc<H>>(ray, Vec2(lower, upper)));
        assert(inner.spec_hit::<Arc<H>>(ray, Vec2(lower, upper)) == inner.spec_hit::<H>(ray, Vec2(lower, upper))) by {
            reveal_with_fuel(AABB::clipped, 4);
        }
        lemma_built_box_encloses(node, s, k);
        node.bbox.lemma_enclosing_box_is_hit::<H>(inner, ray, Vec2(lower, upper));
    }
    if s.len() > 2 {
        match (node.left, node.right) {
            (BvhChild::Node(l), BvhChild::Node(r)) => {
                assert forall|i: int| 0 <= i < s.take(half).len() implies box_admits(
                    #[trigger] s.take(half)[i],
                    ray,
                    lower,
                ) && s.take(half)[i].bounding_box_spec().is_ordered() by {
                    assert(s.take(half)[i] == s[i]);
                }
                assert forall|i: int| 0 <= i < s.skip(half).len() implies box_admits(
                    #[trigger] s.skip(half)[i],
                    ray,
                    lower,
                ) && s.skip(half)[i].bounding_box_spec().is_ordered() by {
                    assert(s.skip(half)[i] == s[i + half]);
                }
                lemma_built_boxes_admit(*l, s.take(half), ray, lower);
                lemma_built_boxes_admit(*r, s.skip(half), ray, lower);
            },
            _ => {},
        }
    }
}

/// The hierarchy that a build made of a list finds along a ray what a scan of
/// that list finds.
///
/// What the hierarchy finds, the scan finds at the same parameter, and it is
/// the same hit where shapes that answer at one parameter give one answer.
/// What the scan finds strictly below the upper bound of the range, the
/// hierarchy finds too; a hit at the upper bound itself it may miss.
///
/// This holds along a ray for which no box hides a hit and each shape answers
/// within the range asked and with the first place the ray meets it.
pub proof fn lemma_hierarchy_matches_scan<H: Hittable>(
    node: BvhNode<H>,
    after: Seq<Arc<H>>,
    before: Seq<Arc<H>>,
    ray: Ray,
    t_range: Vec2,
)
    requires
        built_over(node, after),
        arranged(after, before),
        node.boxes_admit(ray, t_range.0),
        forall|i: int| 0 <= i < before.len() ==> answers_in_range(#[trigger] before[i], ray),
        forall|i: int| 0 <= i < before.len() ==> narrows_well(#[trigger] before[i], ray),
    ensures
        node.hit_spec(ray, t_range) is Some ==> scan_spec(before, ray, t_range) is Some && node.hit_spec(
            ray,
            t_range,
        )->0.t == scan_spec(before, ray, t_range)->0.t,
        node.hit_spec(ray, t_range) is Some && ties_agree(before, ray, t_range) ==> node.hit_spec(ray, t_range)
            == scan_spec(before, ray, t_range),
        scan_spec(before, ray, t_range) is Some && scan_spec(before, ray, t_range)->0.t.key < t_range.1.key
            ==> node.hit_spec(ray, t_range) is Some,
        scan_spec(before, ray, t_range) is None ==> node.hit_spec(ray, t_range) is None,
{
    broadcast use vstd::seq_lib::group_to_multiset_ensures;
    let leaves = node.leaves();
    let found = node.hit_spec(ray, t_range);
    let scanned = scan_spec(before, ray, t_range);
    assert(Vec2(t_range.0, t_range.1) == t_range);
    lemma_built_leaves(node, after);
    lemma_arranged_permutes(after, before);
    assert forall|x: Arc<H>| leaves.contains(x) <==> before.contains(x) by {
        lemma_run_members(after, x);
        assert(after.contains(x) <==> after.to_multiset().count(x) > 0);
        assert(before.contains(x) <==> before.to_multiset().count(x) > 0);
    }
    assert forall|i: int| 0 <= i < leaves.len() implies answers_in_range(#[trigger] leaves[i], ray) && narrows_well(
        leaves[i],
        ray,
    ) by {
        assert(leaves.contains(leaves[i]));
        let k = choose|k: int| 0 <= k < before.len() && before[k] == leaves[i];
        assert(answers_in_range(before[k], ray));
    }
    lemma_traverse_finds_least(node, ray, t_range.0, t_range.1);
    lemma_scan_finds_least(before, ray, t_range);
    if found is Some {
        lemma_least_hits_agree(before, leaves, ray, t_range, scanned, found);
    } else {
        if let Some(rec) = scanned {
            let k = choose|k: int| 0 <= k < before.len() && (#[trigger] before[k]).hit_spec(ray, t_range) == Some(rec);
            assert(before.contains(before[k]));
            assert(leaves.contains(before[k]));
            let j = choose|j: int| 0 <= j < leaves.len() && leaves[j] == before[k];
            assert(!hits_below(leaves[j], ray, t_range.0, t_range.1));
        }
    }
}

/// What `BvhNode::new` made of a list finds along a ray what a scan of the
/// list as it was finds, from what holds of the shapes of that list alone.
///
/// Where the hierarchy finds a hit, it is a closest hit among the shapes: the
/// answer of one of them over the whole range, which no other answer comes
/// before; the scan finds a hit at the same parameter, and the same hit where
/// shapes that answer at one parameter give one answer. Where the hierarchy
/// finds none, no shape answers strictly below the upper bound of the range,
/// and where no shape answers at all, the hierarchy finds none: so where no
/// shape answers at the upper bound itself, the hierarchy finds a hit exactly
/// where some shape answers.
///
/// This holds along a ray for which the divisions of the slab test are
/// monotone, where each shape has a box with its bounds in order that does
/// not hide it, and answers within the range asked and with the first place
/// the ray meets it.
pub proof fn lemma_new_matches_scan<H: Hittable>(
    node: BvhNode<H>,
    after: Seq<Arc<H>>,
    before: Seq<Arc<H>>,
    ray: Ray,
    t_range: Vec2,
)
    requires
        built_over(node, after),
        arranged(after, before),
        forall|i: int| 0 <= i < before.len() ==> answers_in_range(#[trigger] before[i], ray),
        forall|i: int| 0 <= i < before.len() ==> narrows_well(#[trigger] before[i], ray),
        forall|i: int| 0 <= i < before.len() ==> box_admits(#[trigger] before[i], ray, t_range.0),
        forall|i: int| 0 <= i < before.len() ==> (#[trigger] before[i]).bounding_box_spec().is_ordered(),
        slab_is_monotone::<H>(ray.origin.0, ray.direction.0),
        slab_is_monotone::<H>(ray.origin.1, ray.direction.1),
        slab_is_monotone::<H>(ray.origin.2, ray.direction.2),
    ensures
        node.hit_spec(ray, t_range) is Some ==> is_least_hit(before, ray, t_range, node.hit_spec(ray, t_range)),
        node.hit_spec(ray, t_range) is Some ==> t_range.spec_contains(node.hit_spec(ray, t_range)->0.t),
        node.hit_spec(ray, t_range) is Some ==> scan_spec(before, ray, t_range) is Some && node.hit_spec(
            ray,
            t_range,
        )->0.t == scan_spec(before, ray, t_range)->0.t,
        node.hit_spec(ray, t_range) is Some && ties_agree(before, ray, t_range) ==> node.hit_spec(ray, t_range)
            == scan_spec(before, ray, t_range),
        node.hit_spec(ray, t_range) is None ==> forall|i: int|
            0 <= i < before.len() ==> !hits_below(#[trigger] before[i], ray, t_range.0, t_range.1),
        (forall|i: int| 0 <= i < before.len() ==> (#[trigger] before[i]).hit_spec(ray, t_range) is None)
            ==> node.hit_spec(ray, t_range) is None,
        (forall|i: int|
            0 <= i < before.len() && (#[trigger] before[i]).hit_spec(ray, t_range) is Some ==> hits_below(
                before[i],
                ray,
                t_range.0,
                t_range.1,
            )) ==> (node.hit_spec(ray, t_range) is None <==> forall|i: int|
            0 <= i < before.len() ==> (#[trigger] before[i]).hit_spec(ray, t_range) is None),
        scan_spec(before, ray, t_range) is Some && scan_spec(before, ray, t_range)->0.t.key < t_range.1.key
            ==> node.hit_spec(ray, t_range) is Some,
{
    broadcast use vstd::seq_lib::group_to_multiset_ensures;
    let leaves = node.leaves();
    let found = node.hit_spec(ray, t_range);
    assert(Vec2(t_range.0, t_range.1) == t_range);
    lemma_arranged_permutes(after, before);
    lemma_built_leaves(node, after);
    assert forall|i: int| 0 <= i < after.len() implies box_admits(#[trigger] after[i], ray, t_range.0)
        && after[i].bounding_box_spec().is_ordered() by {
        assert(after.contains(after[i]));
        assert(after.to_multiset().count(after[i]) > 0);
        assert(before.contains(after[i]));
        let k = choose|k: int| 0 <= k < before.len() && before[k] == after[i];
        assert(box_admits(before[k], ray, t_range.0));
    }
    lemma_built_boxes_admit(node, after, ray, t_range.0);
    lemma_hierarchy_matches_scan(node, after, before, ray, t_range);
    assert forall|x: Arc<H>| leaves.contains(x) <==> before.contains(x) by {
        lemma_run_members(after, x);
        assert(after.contains(x) <==> after.to_multiset().count(x) > 0);
        assert(before.contains(x) <==> before.to_multiset().count(x) > 0);
    }
    assert forall|i: int| 0 <= i < leaves.len() implies answers_in_range(#[trigger] leaves[i], ray) && narrows_well(
        leaves[i],
        ray,
    ) by {
        assert(leaves.contains(leaves[i]));
        let k = choose|k: int| 0 <= k < before.len() && before[k] == leaves[i];
        assert(answers_in_range(before[k], ray));
    }
    lemma_traverse_finds_least(node, ray, t_range.0, t_range.1);
    match found {
        Some(rec) => {
            let j = choose|j: int| 0 <= j < leaves.len() && (#[trigger] leaves[j]).hit_spec(ray, t_range) == Some(rec);
            assert(leaves.contains(leaves[j]));
            let k = choose|k: int| 0 <= k < before.len() && before[k] == leaves[j];
            assert(before[k].hit_spec(ray, t_range) == Some(rec));
            assert(answers_in_range(before[k], ray));
            assert forall|i: int| 0 <= i < before.len() implies match (#[trigger] before[i]).hit_spec(ray, t_range) {
                Some(other) => rec.t.key <= other.t.key,
                None => true,
            } by {
                assert(before.contains(before[i]));
                let m = choose|m: int| 0 <= m < leaves.len() && leaves[m] == before[i];
                assert(leaves[m].hit_spec(ray, t_range) == before[i].hit_spec(ray, t_range));
            }
        },
        None => {
            assert forall|i: int| 0 <= i < before.len() implies !hits_below(
                #[trigger] before[i],
                ray,
                t_range.0,
                t_range.1,
            ) by {
                assert(before.contains(before[i]));
                let m = choose|m: int| 0 <= m < leaves.len() && leaves[m] == before[i];
                assert(!hits_below(leaves[m], ray, t_range.0, t_range.1));
            }
        },
    }
}

} // verus!
