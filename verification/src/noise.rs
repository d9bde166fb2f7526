use vstd::prelude::*;
use crate::random::m_random_range;
use crate::vec::Vec3;

verus! {

/// The table `0, 1, .., 255`.
pub open spec fn identity_table() -> Seq<usize> {
    Seq::new(256, |i: int| i as usize)
}

/// `table` holds each of `0, 1, .., 255` once.
pub open spec fn is_permutation(table: Seq<usize>) -> bool {
    table.to_multiset() == identity_table().to_multiset()
}

/// `table` with the entries at `idx` and `target` exchanged.
pub open spec fn swapped(table: Seq<usize>, idx: int, target: int) -> Seq<usize> {
    table.update(idx, table[target]).update(target, table[idx])
}

/// An exchange of two entries keeps what the table holds.
pub proof fn lemma_swapped_keeps_entries(table: Seq<usize>, idx: int, target: int)
    requires
        0 <= idx < table.len(),
        0 <= target < table.len(),
    ensures
        swapped(table, idx, target).to_multiset() == table.to_multiset(),
{
    broadcast use vstd::seq_lib::group_to_multiset_ensures;
    let mid = table.update(idx, table[target]);
    vstd::seq_lib::to_multiset_update(table, idx, table[target]);
    vstd::seq_lib::to_multiset_update(mid, target, table[idx]);
    assert(table.to_multiset().count(table[idx]) > 0) by {
        assert(table.contains(table[idx]));
    }
    assert(table.to_multiset().count(table[target]) > 0) by {
        assert(table.contains(table[target]));
    }
    assert(swapped(table, idx, target).to_multiset() =~= table.to_multiset());
}

/// Every entry of a permutation is below 256.
pub proof fn lemma_permutation_entries(table: Seq<usize>)
    requires
        is_permutation(table),
    ensures
        forall|i: int| 0 <= i < table.len() ==> (#[trigger] table[i]) < 256,
{
    broadcast use vstd::seq_lib::group_to_multiset_ensures;
    assert forall|i: int| 0 <= i < table.len() implies (#[trigger] table[i]) < 256 by {
        assert(table.contains(table[i]));
        assert(table.to_multiset().count(table[i]) > 0);
        assert(identity_table().contains(table[i]));
        let k = choose|k: int| 0 <= k < identity_table().len() && identity_table()[k] == table[i];
        assert(table[i] == k as usize);
    }
}

/// Exchanges the entries at `idx` and `target`.
pub fn swap_entries(value: [usize; 256], idx: usize, target: usize) -> (r: [usize; 256])
    requires
        idx < 256,
        target < 256,
    ensures
        r@ == swapped(value@, idx as int, target as int),
{
    let mut value = value;
    let a = value[idx];
    let b = value[target];
    value[idx] = b;
    value[target] = a;
    value
}

/// The table `0, 1, .., 255`.
pub fn identity() -> (r: [usize; 256])
    ensures
        r@ == identity_table(),
{
    let mut value = [0usize; 256];
    let mut idx: usize = 0;
    while idx < 256
        invariant
            idx <= 256,
            forall|k: int| 0 <= k < idx ==> value@[k] == k as usize,
        decreases 256 - idx,
    {
        value[idx] = idx;
        idx = idx + 1;
    }
    proof {
        assert(value@ =~= identity_table());
    }
    value
}

/// A lattice of random gradients, reached through three shuffled tables, each
/// of which holds each of `0, 1, .., 255` once.
pub struct PerlinNoise {
    rand_value: [Vec3; 256],
    perms: ([usize; 256], [usize; 256], [usize; 256]),
}

impl PerlinNoise {
    #[verifier::type_invariant]
    closed spec fn wf(&self) -> bool {
        &&& is_permutation(self.perms.0@)
        &&& is_permutation(self.perms.1@)
        &&& is_permutation(self.perms.2@)
    }

    /// The gradients.
    pub closed spec fn gradients(&self) -> Seq<Vec3> {
        self.rand_value@
    }

    /// The three tables.
    pub closed spec fn tables(&self) -> (Seq<usize>, Seq<usize>, Seq<usize>) {
        (self.perms.0@, self.perms.1@, self.perms.2@)
    }

    /// The lattice with the gradients `rand_value` and three tables that are
    /// shuffled afresh.
    pub fn new(rand_value: [Vec3; 256]) -> (noise: Self)
        ensures
            noise.gradients() == rand_value@,
            is_permutation(noise.tables().0),
            is_permutation(noise.tables().1),
            is_permutation(noise.tables().2),
    {
        PerlinNoise {
            rand_value,
            perms: (Self::permute(identity()), Self::permute(identity()), Self::permute(identity())),
        }
    }

    /// Shuffles `value`: each entry in turn changes places with one drawn at
    /// random. What `value` holds stays; the order is whatever was drawn.
    pub fn permute(value: [usize; 256]) -> (r: [usize; 256])
        ensures
            r@.to_multiset() == value@.to_multiset(),
    {
        let mut value = value;
        let ghost start = value@;
        let mut idx: usize = 0;
        while idx < 256
            invariant
                idx <= 256,
                value@.to_multiset() == start.to_multiset(),
            decreases 256 - idx,
        {
            let target = m_random_range(0, 256);
            proof {
                lemma_swapped_keeps_entries(value@, idx as int, target as int);
            }
            value = swap_entries(value, idx, target);
            idx = idx + 1;
        }
        value
    }

    /// The place in the gradients of the one at the lattice point `(i, j, k)`:
    /// the entries of the three tables at the low eight bits of the
    /// coordinates, combined bit by bit by exclusive or.
    pub open spec fn spec_slot(&self, i: i32, j: i32, k: i32) -> usize {
        self.tables().0[(i & 255) as int] ^ self.tables().1[(j & 255) as int] ^ self.tables().2[(k & 255) as int]
    }

    /// The gradient at the lattice point `(i, j, k)`.
    pub fn value_at(&self, i: i32, j: i32, k: i32) -> (gradient: Vec3)
        ensures
            self.spec_slot(i, j, k) < 256,
            gradient == self.gradients()[self.spec_slot(i, j, k) as int],
    {
        proof {
            use_type_invariant(self);
            lemma_permutation_entries(self.perms.0@);
            lemma_permutation_entries(self.perms.1@);
            lemma_permutation_entries(self.perms.2@);
            assert(0 <= (i & 255) < 256) by (bit_vector);
            assert(0 <= (j & 255) < 256) by (bit_vector);
            assert(0 <= (k & 255) < 256) by (bit_vector);
        }
        let a = self.perms.0[(i & 255) as usize];
        let b = self.perms.1[(j & 255) as usize];
        let c = self.perms.2[(k & 255) as usize];
        proof {
            assert(a < 256 && b < 256 && c < 256 ==> (a ^ b ^ c) < 256) by (bit_vector);
        }
        self.rand_value[a ^ b ^ c]
    }
}

} // verus!
