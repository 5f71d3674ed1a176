//! Selection sort: for each position, scan the unsorted suffix for the
//! position of its minimum and swap it into place.
//!
//! Cost model: one comparison per element examined in each scan plus one for
//! the final index check, one movement per swap actually performed.  The
//! comparison total therefore depends only on the length: half of
//! `(len + 2) * (len - 1)` for any input holding at least a pair.

use vstd::prelude::*;

verus! {

use crate::counting::{lemma_swap_at_multiset, swap_at};
use crate::order::{is_sorted, lemma_sorted_permutation_unique};
use crate::stats::Stats;

/// Sorts `v` ascending by selection sort.
///
/// The comparison count is fixed by the length alone; at most one swap per
/// position is performed, and none at all when the input is already sorted.
pub fn selection_sort(v: Vec<u32>) -> (r: Stats)
    requires
        v@.len() <= 1_000_000,
    ensures
        r.sorts(v@),
        v@.len() < 2 ==> r.cmp_counter == 0 && r.swap_counter == 0 && r.ordered@ == v@,
        v@.len() >= 2 ==> 2 * r.cmp_counter == (v@.len() + 2) * (v@.len() - 1),
        v@.len() >= 2 ==> r.swap_counter <= v@.len() - 1,
        is_sorted(v@) ==> r.swap_counter == 0 && r.ordered@ == v@,
{
    let ghost input = v@;
    let mut v = v;
    let mut cmp_counter: u64 = 0;
    let mut swap_counter: u64 = 0;
    if v.len() < 2 {
        return Stats { cmp_counter, swap_counter, ordered: v };
    }
    let n = v.len();
    let mut i: usize = 0;
    while i < n - 1
        invariant
            n == v@.len(),
            2 <= n <= 1_000_000,
            input.len() == n,
            i <= n - 1,
            v@.to_multiset() == input.to_multiset(),
            forall|a: int, b: int| 0 <= a <= b < i ==> v@[a] <= v@[b],
            forall|a: int, b: int| 0 <= a < i <= b < n ==> v@[a] <= v@[b],
            2 * (cmp_counter as int) == i * (2 * n - i + 1),
            swap_counter <= i,
            is_sorted(input) ==> v@ == input && swap_counter == 0,
        decreases n - 1 - i,
    {
        let mut min_index = i;
        let mut j = i + 1;
        while j < n
            invariant
                n == v@.len(),
                2 <= n <= 1_000_000,
                i < n - 1,
                i < j <= n,
                i <= min_index < j,
                forall|k: int| i <= k < j ==> v@[min_index as int] <= v@[k],
                2 * (cmp_counter as int) == i * (2 * n - i + 1) + 2 * (j - i - 1),
                is_sorted(input) ==> v@ == input && min_index == i,
            decreases n - j,
        {
            if v[j] < v[min_index] {
                proof {
                    if is_sorted(input) {
                        assert(input[i as int] <= input[j as int]);
                        assert(v@[min_index as int] <= v@[j as int]);
                    }
                }
                min_index = j;
            }
            proof {
                assert(2 * (cmp_counter as int) + 2 <= 4_000_000_000_000) by (nonlinear_arith)
                    requires
                        2 * (cmp_counter as int) == i * (2 * n - i + 1) + 2 * (j - i - 1),
                        0 <= i < n,
                        i < j <= n,
                        n <= 1_000_000,
                {}
            }
            cmp_counter = cmp_counter + 1;
            j = j + 1;
        }
        let ghost vbefore = v@;
        if min_index > i {
            let a = v[i];
            let b = v[min_index];
            v.set(i, b);
            v.set(min_index, a);
            proof {
                assert(v@ =~= swap_at(vbefore, i as int, min_index as int));
                lemma_swap_at_multiset(vbefore, i as int, min_index as int);
            }
            swap_counter = swap_counter + 1;
        }
        proof {
            let ii = i as int;
            let mi = min_index as int;
            assert forall|a: int, b: int| 0 <= a <= b < ii + 1 implies v@[a] <= v@[b] by {
                if b == ii {
                    if a < ii {
                        assert(vbefore[a] <= vbefore[mi]);
                    }
                } else {
                    assert(vbefore[a] <= vbefore[b]);
                }
            }
            assert forall|a: int, b: int| 0 <= a < ii + 1 <= b < n implies v@[a] <= v@[b] by {
                if a < ii {
                    if b == mi {
                        assert(vbefore[a] <= vbefore[ii]);
                    } else {
                        assert(vbefore[a] <= vbefore[b]);
                    }
                } else {
                    if b == mi {
                        assert(vbefore[mi] <= vbefore[ii]);
                    } else {
                        assert(vbefore[mi] <= vbefore[b]);
                    }
                }
            }
            assert(2 * (cmp_counter as int) + 2 <= 4_000_000_000_000) by (nonlinear_arith)
                requires
                    2 * (cmp_counter as int) == i * (2 * n - i + 1) + 2 * (n - i - 1),
                    0 <= i < n,
                    n <= 1_000_000,
            {}
            assert((i + 1) * (2 * n - (i + 1) + 1) == i * (2 * n - i + 1) + 2 * (n - i))
                by (nonlinear_arith);
        }
        cmp_counter = cmp_counter + 1;
        i = i + 1;
    }
    proof {
        assert(2 * (cmp_counter as int) == (n + 2) * (n - 1)) by (nonlinear_arith)
            requires
                2 * (cmp_counter as int) == (n - 1) * (2 * n - (n - 1) + 1),
        {}
    }
    proof {
        assert(is_sorted(v@)) by {
            assert forall|a: int, b: int| 0 <= a <= b < v@.len() implies v@[a] <= v@[b] by {
                if b < n - 1 {
                } else if a < n - 1 {
                    assert(v@[a] <= v@[b]);
                }
            }
        }
        if is_sorted(input) {
            lemma_sorted_permutation_unique(v@, input);
        }
    }
    Stats { cmp_counter, swap_counter, ordered: v }
}

} // verus!
