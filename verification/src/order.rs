//! The ordering that every algorithm must establish, and the fact that a
//! sorted rearrangement of a sequence is unique.

use vstd::prelude::*;

verus! {

use vstd::relations::{sorted_by, total_ordering};
use vstd::seq_lib::lemma_sorted_unique;

/// A sequence is sorted when its elements are pairwise non-decreasing.
pub open spec fn is_sorted(s: Seq<u32>) -> bool {
    forall|i: int, j: int| 0 <= i <= j < s.len() ==> s[i] <= s[j]
}

/// Two sequences are rearrangements of one another when they carry the same
/// multiset of values.
pub open spec fn permutes(a: Seq<u32>, b: Seq<u32>) -> bool {
    a.to_multiset() == b.to_multiset()
}

/// The non-strict order on `u32`, as a relation value.
pub open spec fn u32_le() -> spec_fn(u32, u32) -> bool {
    |a: u32, b: u32| a <= b
}

/// `is_sorted` coincides with `sorted_by` under the non-strict `u32` order.
pub proof fn lemma_is_sorted_iff_sorted_by(s: Seq<u32>)
    ensures
        is_sorted(s) <==> sorted_by(s, u32_le()),
{
    if is_sorted(s) {
        assert forall|i: int, j: int| 0 <= i < j < s.len() implies #[trigger] (u32_le()(
            s[i],
            s[j],
        )) by {
            assert(s[i] <= s[j]);
        }
    }
    if sorted_by(s, u32_le()) {
        assert forall|i: int, j: int| 0 <= i <= j < s.len() implies s[i] <= s[j] by {
            if i < j {
                assert(u32_le()(s[i], s[j]));
            }
        }
    }
}

/// The non-strict order on `u32` is total.
pub proof fn lemma_u32_le_total()
    ensures
        total_ordering(u32_le()),
{
    assert forall|x: u32| #[trigger] (u32_le()(x, x)) by {}
    assert forall|x: u32, y: u32| x != y implies #[trigger] (u32_le()(x, y)) || #[trigger] (u32_le()(
        y,
        x,
    )) by {}
    assert forall|x: u32, y: u32|
        #[trigger] (u32_le()(x, y)) && #[trigger] (u32_le()(y, x)) implies x == y by {}
    assert forall|x: u32, y: u32, z: u32|
        #[trigger] (u32_le()(x, y)) && #[trigger] (u32_le()(y, z)) implies u32_le()(x, z) by {}
}

/// Transitivity, spelled out along a chain of adjacent positions.
proof fn lemma_le_chain(s: Seq<u32>, i: int, j: int)
    requires
        forall|k: int| 0 <= k < s.len() - 1 ==> #[trigger] s[k] <= s[k + 1],
        0 <= i <= j < s.len(),
    ensures
        s[i] <= s[j],
    decreases j - i,
{
    if i < j {
        lemma_le_chain(s, i, j - 1);
        assert(s[j - 1] <= s[j]);
    }
}

/// A sequence whose adjacent pairs are all in order is sorted.
pub proof fn lemma_adjacent_implies_sorted(s: Seq<u32>)
    requires
        forall|k: int| 0 <= k < s.len() - 1 ==> #[trigger] s[k] <= s[k + 1],
    ensures
        is_sorted(s),
{
    assert forall|i: int, j: int| 0 <= i <= j < s.len() implies s[i] <= s[j] by {
        lemma_le_chain(s, i, j);
    }
}

/// There is only one sorted rearrangement of a sequence: any two sorted
/// sequences with the same multiset of values are equal.  In particular,
/// every algorithm of this crate must produce the same `ordered` sequence
/// on the same input, and feeding an already-sorted sequence to any of them
/// hands the very same sequence back.
pub proof fn lemma_sorted_permutation_unique(a: Seq<u32>, b: Seq<u32>)
    requires
        is_sorted(a),
        is_sorted(b),
        permutes(a, b),
    ensures
        a == b,
{
    lemma_is_sorted_iff_sorted_by(a);
    lemma_is_sorted_iff_sorted_by(b);
    lemma_u32_le_total();
    lemma_sorted_unique(a, b, u32_le());
}

} // verus!
