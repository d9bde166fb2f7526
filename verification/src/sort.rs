use vstd::prelude::*;
use std::sync::Arc;
use crate::hittable::Hittable;

verus! {

/// The number by which a shape is ordered on `axis`: the lower bound of its
/// box there.
pub open spec fn axis_key<H: Hittable>(item: H, axis: int) -> int {
    item.bounding_box_spec().spec_index(axis).0.key as int
}

/// `s` with `x` put in behind the last shape that does not come after it.
pub open spec fn insert_sorted<H: Hittable>(s: Seq<H>, x: H, axis: int) -> Seq<H>
    decreases s.len(),
{
    if s.len() == 0 {
        seq![x]
    } else if axis_key(s.last(), axis) <= axis_key(x, axis) {
        s.push(x)
    } else {
        insert_sorted(s.drop_last(), x, axis).push(s.last())
    }
}

/// The shapes of `s` in ascending order of their keys on `axis`, those with
/// equal keys in the order they had in `s`.
pub open spec fn sort_spec<H: Hittable>(s: Seq<H>, axis: int) -> Seq<H>
    decreases s.len(),
{
    if s.len() == 0 {
        s
    } else {
        insert_sorted(sort_spec(s.drop_last(), axis), s.last(), axis)
    }
}

/// No shape of `s` comes before one with a lesser key on `axis`.
pub open spec fn is_sorted<H: Hittable>(s: Seq<H>, axis: int) -> bool {
    forall|i: int, j: int| 0 <= i <= j < s.len() ==> axis_key(s[i], axis) <= axis_key(s[j], axis)
}

/// Putting a shape in adds it to what the list holds, and nothing else.
pub proof fn lemma_insert_sorted_len<H: Hittable>(s: Seq<H>, x: H, axis: int)
    ensures
        insert_sorted(s, x, axis).len() == s.len() + 1,
        insert_sorted(s, x, axis).to_multiset() == s.to_multiset().insert(x),
    decreases s.len(),
{
    broadcast use vstd::seq_lib::group_to_multiset_ensures;
    if s.len() == 0 {
        assert(seq![x] =~= Seq::<H>::empty().push(x));
        assert(s =~= Seq::<H>::empty());
    } else if axis_key(s.last(), axis) <= axis_key(x, axis) {
    } else {
        lemma_insert_sorted_len(s.drop_last(), x, axis);
        assert(s.drop_last().push(s.last()) =~= s);
        assert(s.drop_last().to_multiset().insert(x).insert(s.last()) =~= s.to_multiset().insert(x));
    }
}

/// Sorting keeps the shapes: as many as before, and each as often.
pub proof fn lemma_sort_is_permutation<H: Hittable>(s: Seq<H>, axis: int)
    ensures
        sort_spec(s, axis).len() == s.len(),
        sort_spec(s, axis).to_multiset() == s.to_multiset(),
    decreases s.len(),
{
    broadcast use vstd::seq_lib::group_to_multiset_ensures;
    if s.len() > 0 {
        lemma_sort_is_permutation(s.drop_last(), axis);
        lemma_insert_sorted_len(sort_spec(s.drop_last(), axis), s.last(), axis);
        assert(s.drop_last().push(s.last()) =~= s);
    }
}

/// Putting a shape into a list in ascending order leaves it in ascending
/// order.
pub proof fn lemma_insert_sorted_is_sorted<H: Hittable>(s: Seq<H>, x: H, axis: int)
    requires
        is_sorted(s, axis),
    ensures
        is_sorted(insert_sorted(s, x, axis), axis),
    decreases s.len(),
{
    if s.len() == 0 {
    } else if axis_key(s.last(), axis) <= axis_key(x, axis) {
        let r = s.push(x);
        assert forall|i: int, j: int| 0 <= i <= j < r.len() implies axis_key(r[i], axis) <= axis_key(r[j], axis) by {
            if j == s.len() && i < s.len() {
                assert(axis_key(s[i], axis) <= axis_key(s[s.len() - 1], axis));
            }
        }
    } else {
        let head = s.drop_last();
        assert forall|i: int, j: int| 0 <= i <= j < head.len() implies axis_key(head[i], axis) <= axis_key(head[j], axis) by {
            assert(head[i] == s[i] && head[j] == s[j]);
        }
        lemma_insert_sorted_is_sorted(head, x, axis);
        lemma_insert_sorted_len(head, x, axis);
        let mid = insert_sorted(head, x, axis);
        let r = mid.push(s.last());
        broadcast use vstd::seq_lib::group_to_multiset_ensures;
        assert forall|i: int, j: int| 0 <= i <= j < r.len() implies axis_key(r[i], axis) <= axis_key(r[j], axis) by {
            if j == mid.len() && i < mid.len() {
                // every shape of `mid` is `x` or a shape of `head`
                assert(mid.to_multiset().count(mid[i]) > 0);
                if mid[i] != x {
                    assert(head.to_multiset().count(mid[i]) > 0);
                    assert(head.contains(mid[i]));
                    let k = choose|k: int| 0 <= k < head.len() && head[k] == mid[i];
                    assert(axis_key(s[k], axis) <= axis_key(s[s.len() - 1], axis));
                }
            }
        }
    }
}

/// A sorted sequence is in ascending order of the keys.
pub proof fn lemma_sort_is_sorted<H: Hittable>(s: Seq<H>, axis: int)
    ensures
        is_sorted(sort_spec(s, axis), axis),
    decreases s.len(),
{
    if s.len() > 0 {
        lemma_sort_is_sorted(s.drop_last(), axis);
        lemma_insert_sorted_is_sorted(sort_spec(s.drop_last(), axis), s.last(), axis);
    }
}

/// Two lists run into one from their ends: the last shape of the result is
/// the last of `a` where that comes strictly after the last of `b`, and else
/// the last of `b`.
pub open spec fn merge_spec<H: Hittable>(a: Seq<H>, b: Seq<H>, axis: int) -> Seq<H>
    decreases a.len() + b.len(),
{
    if a.len() == 0 {
        b
    } else if b.len() == 0 {
        a
    } else if axis_key(a.last(), axis) > axis_key(b.last(), axis) {
        merge_spec(a.drop_last(), b, axis).push(a.last())
    } else {
        merge_spec(a, b.drop_last(), axis).push(b.last())
    }
}

/// A merge is as long as the two lists together.
pub proof fn lemma_merge_len<H: Hittable>(a: Seq<H>, b: Seq<H>, axis: int)
    ensures
        merge_spec(a, b, axis).len() == a.len() + b.len(),
    decreases a.len() + b.len(),
{
    if a.len() == 0 || b.len() == 0 {
    } else if axis_key(a.last(), axis) > axis_key(b.last(), axis) {
        lemma_merge_len(a.drop_last(), b, axis);
    } else {
        lemma_merge_len(a, b.drop_last(), axis);
    }
}

/// To put a shape into the second list and then merge is to merge and then
/// put the shape in.
pub proof fn lemma_merge_insert<H: Hittable>(a: Seq<H>, b: Seq<H>, x: H, axis: int)
    ensures
        merge_spec(a, insert_sorted(b, x, axis), axis) == insert_sorted(merge_spec(a, b, axis), x, axis),
    decreases a.len() + b.len(),
{
    let with_x = insert_sorted(b, x, axis);
    lemma_insert_sorted_len(b, x, axis);
    lemma_merge_len(a, b, axis);
    if a.len() == 0 {
    } else if b.len() == 0 {
        assert(with_x =~= seq![x]);
        assert(with_x.last() == x);
        assert(with_x.drop_last() =~= b);
        if axis_key(a.last(), axis) > axis_key(x, axis) {
            lemma_merge_insert(a.drop_last(), b, x, axis);
            assert(merge_spec(a.drop_last(), b, axis) == a.drop_last());
        } else {
        }
    } else {
        let y = b.last();
        if axis_key(y, axis) <= axis_key(x, axis) {
            assert(with_x == b.push(x));
            assert(with_x.last() == x);
            assert(with_x.drop_last() =~= b);
            if axis_key(a.last(), axis) > axis_key(x, axis) {
                lemma_merge_insert(a.drop_last(), b, x, axis);
                lemma_merge_len(a.drop_last(), b, axis);
                let m = merge_spec(a.drop_last(), b, axis).push(a.last());
                assert(merge_spec(a, b, axis) == m);
                assert(m.last() == a.last());
                assert(m.drop_last() =~= merge_spec(a.drop_last(), b, axis));
            } else {
                let m = merge_spec(a, b, axis);
                assert(axis_key(m.last(), axis) <= axis_key(x, axis)) by {
                    if axis_key(a.last(), axis) > axis_key(y, axis) {
                        lemma_merge_len(a.drop_last(), b, axis);
                        assert(m.last() == a.last());
                    } else {
                        lemma_merge_len(a, b.drop_last(), axis);
                        assert(m.last() == y);
                    }
                }
            }
        } else {
            let head = insert_sorted(b.drop_last(), x, axis);
            lemma_insert_sorted_len(b.drop_last(), x, axis);
            assert(with_x == head.push(y));
            assert(with_x.last() == y);
            assert(with_x.drop_last() =~= head);
            if axis_key(a.last(), axis) > axis_key(y, axis) {
                lemma_merge_insert(a.drop_last(), b, x, axis);
                lemma_merge_len(a.drop_last(), b, axis);
                let m = merge_spec(a.drop_last(), b, axis).push(a.last());
                assert(merge_spec(a, b, axis) == m);
                assert(m.last() == a.last());
                assert(m.drop_last() =~= merge_spec(a.drop_last(), b, axis));
            } else {
                lemma_merge_insert(a, b.drop_last(), x, axis);
                lemma_merge_len(a, b.drop_last(), axis);
                let m = merge_spec(a, b.drop_last(), axis).push(y);
                assert(merge_spec(a, b, axis) == m);
                assert(m.last() == y);
                assert(m.drop_last() =~= merge_spec(a, b.drop_last(), axis));
            }
        }
    }
}

/// Two sorted halves, merged, are the whole list sorted.
pub proof fn lemma_merge_of_sorted<H: Hittable>(a: Seq<H>, b: Seq<H>, axis: int)
    ensures
        merge_spec(sort_spec(a, axis), sort_spec(b, axis), axis) == sort_spec(a + b, axis),
    decreases b.len(),
{
    if b.len() == 0 {
        assert(a + b =~= a);
    } else {
        lemma_merge_of_sorted(a, b.drop_last(), axis);
        lemma_merge_insert(sort_spec(a, axis), sort_spec(b.drop_last(), axis), b.last(), axis);
        assert((a + b).drop_last() =~= a + b.drop_last());
        assert((a + b).last() == b.last());
    }
}

/// Sorts `list` in place by the lower bound of each shape's box on `axis`,
/// keeping shapes with equal bounds in the order they came in.
pub fn sort_by_axis<H: Hittable>(list: &mut [Arc<H>], axis: usize)
    requires
        axis < 3,
    ensures
        final(list)@ == sort_spec(old(list)@, axis as int),
    decreases old(list)@.len(),
{
    let n = list.len();
    if n <= 1 {
        proof {
            reveal_with_fuel(sort_spec, 2);
            if n == 1 {
                assert(list@.drop_last() =~= Seq::<Arc<H>>::empty());
                assert(insert_sorted(Seq::<Arc<H>>::empty(), list@.last(), axis as int) =~= list@);
            }
        }
        return ;
    }
    let half = n / 2;
    let (first, second) = list.split_at_mut(half);
    sort_by_axis(first, axis);
    sort_by_axis(second, axis);
    proof {
        lemma_sort_is_permutation(old(list)@.subrange(0, half as int), axis as int);
        lemma_sort_is_permutation(old(list)@.subrange(half as int, n as int), axis as int);
        lemma_merge_of_sorted(
            old(list)@.subrange(0, half as int),
            old(list)@.subrange(half as int, n as int),
            axis as int,
        );
        assert(old(list)@.subrange(0, half as int) + old(list)@.subrange(half as int, n as int) =~= old(list)@);
    }
    let ghost mid = list@;
    proof {
        assert(mid.subrange(0, half as int) =~= sort_spec(old(list)@.subrange(0, half as int), axis as int));
        assert(mid.subrange(half as int, n as int) =~= sort_spec(
            old(list)@.subrange(half as int, n as int),
            axis as int,
        ));
    }
    let mut left: Vec<Arc<H>> = Vec::new();
    let mut right: Vec<Arc<H>> = Vec::new();
    let mut c: usize = 0;
    while c < n
        invariant
            c <= n,
            half < n,
            n == list@.len(),
            list@ == mid,
            left@ == list@.take(if c < half { c as int } else { half as int }),
            right@ == list@.subrange(half as int, if c < half { half as int } else { c as int }),
        decreases n - c,
    {
        if c < half {
            left.push(list[c].clone());
            assert(left@ =~= list@.take(c + 1));
        } else {
            right.push(list[c].clone());
            assert(right@ =~= list@.subrange(half as int, c + 1));
        }
        c = c + 1;
    }
    let ghost whole = merge_spec(left@, right@, axis as int);
    proof {
        lemma_merge_len(left@, right@, axis as int);
        assert(left@ =~= mid.subrange(0, half as int));
        assert(right@ =~= mid.subrange(half as int, n as int));
        assert(whole == sort_spec(old(list)@, axis as int));
        assert(left@.take(left@.len() as int) =~= left@);
        assert(right@.take(right@.len() as int) =~= right@);
        assert(list@.skip(n as int) =~= Seq::<Arc<H>>::empty());
        assert(whole =~= whole + list@.skip(n as int));
    }
    let mut i: usize = left.len();
    let mut j: usize = right.len();
    let mut k: usize = n;
    while k > 0
        invariant
            axis < 3,
            i <= left@.len(),
            j <= right@.len(),
            k == i + j,
            n == list@.len(),
            n == left@.len() + right@.len(),
            whole.len() == n,
            whole == merge_spec(left@.take(i as int), right@.take(j as int), axis as int) + list@.skip(k as int),
        decreases k,
    {
        let ghost a = left@.take(i as int);
        let ghost b = right@.take(j as int);
        let ghost tail = list@.skip(k as int);
        let from_left = if j == 0 {
            true
        } else if i == 0 {
            false
        } else {
            left[i - 1].bounding_box().index(axis).0.key > right[j - 1].bounding_box().index(axis).0.key
        };
        if from_left {
            list[k - 1] = left[i - 1].clone();
            proof {
                assert(a.drop_last() =~= left@.take(i - 1));
                assert(a.last() == left@[i - 1]);
                lemma_merge_len(a.drop_last(), b, axis as int);
                assert(merge_spec(a, b, axis as int) =~= merge_spec(a.drop_last(), b, axis as int).push(a.last()));
                assert(list@.skip(k - 1) =~= seq![a.last()] + tail);
                assert(whole =~= merge_spec(left@.take(i - 1), b, axis as int) + list@.skip(k - 1));
            }
            i = i - 1;
        } else {
            list[k - 1] = right[j - 1].clone();
            proof {
                assert(b.drop_last() =~= right@.take(j - 1));
                assert(b.last() == right@[j - 1]);
                lemma_merge_len(a, b.drop_last(), axis as int);
                assert(merge_spec(a, b, axis as int) =~= merge_spec(a, b.drop_last(), axis as int).push(b.last()));
                assert(list@.skip(k - 1) =~= seq![b.last()] + tail);
                assert(whole =~= merge_spec(a, right@.take(j - 1), axis as int) + list@.skip(k - 1));
            }
            j = j - 1;
        }
        k = k - 1;
    }
    proof {
        assert(left@.take(0) =~= Seq::<Arc<H>>::empty());
        assert(list@.skip(0) =~= list@);
        assert(whole =~= list@);
    }
}

} // verus!
