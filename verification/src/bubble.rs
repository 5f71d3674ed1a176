//! Bubble sort: repeated left-to-right passes swapping adjacent out-of-order
//! pairs, stopping after the first pass that performs no swap.
//!
//! Cost model: one comparison per adjacent pair examined in every pass, one
//! movement per swap.  Since each swap removes exactly one inversion of the
//! working sequence, the movement total equals the number of inversions of
//! the input — the contract states that exactly.

use vstd::prelude::*;

verus! {

use crate::counting::{
    inversions,
    lemma_inversions_le_sq,
    lemma_inversions_short,
    lemma_sorted_inversions_zero,
    lemma_swap_adj_inversions,
    lemma_swap_adj_multiset,
    swap_adj,
};
use crate::order::{is_sorted, lemma_adjacent_implies_sorted, lemma_sorted_permutation_unique};
use crate::stats::Stats;

/// Sorts `v` ascending by bubble sort.
///
/// The movement count equals the number of inversions of the input; the
/// comparison count is the number of passes times `v.len() - 1`, which on an
/// already-sorted input means the single swap-free pass that stops the
/// algorithm.  Inputs too short to hold a pair cost nothing.
pub fn bubble_sort(v: Vec<u32>) -> (r: Stats)
    requires
        v@.len() <= 1_000_000,
    ensures
        r.sorts(v@),
        r.swap_counter == inversions(v@),
        v@.len() < 2 ==> r.cmp_counter == 0 && r.ordered@ == v@,
        v@.len() >= 2 ==> r.cmp_counter >= v@.len() - 1,
        is_sorted(v@) ==> r.ordered@ == v@,
        is_sorted(v@) ==> r.cmp_counter == (if v@.len() < 2 {
            0int
        } else {
            v@.len() - 1
        }),
{
    let ghost input = v@;
    let mut v = v;
    let mut cmp_counter: u64 = 0;
    let mut swap_counter: u64 = 0;
    if v.len() < 2 {
        proof {
            lemma_inversions_short(input);
        }
        return Stats { cmp_counter, swap_counter, ordered: v };
    }
    let n = v.len();
    proof {
        lemma_inversions_le_sq(input);
        assert(input.len() * input.len() <= 1_000_000_000_000) by (nonlinear_arith)
            requires
                input.len() <= 1_000_000,
        {}
        if is_sorted(input) {
            lemma_sorted_inversions_zero(input);
        }
    }
    let ghost mut passes: int = 0;
    loop
        invariant_except_break
            n == v@.len(),
            2 <= n <= 1_000_000,
            input.len() == n,
            v@.to_multiset() == input.to_multiset(),
            inversions(input) <= 1_000_000_000_000,
            swap_counter as int == inversions(input) - inversions(v@),
            cmp_counter as int == passes * (n - 1),
            0 <= passes,
            passes <= inversions(input) - inversions(v@),
            is_sorted(input) ==> v@ == input && passes == 0,
        ensures
            n == v@.len(),
            v@.to_multiset() == input.to_multiset(),
            is_sorted(v@),
            swap_counter as int == inversions(input) - inversions(v@),
            cmp_counter as int >= n - 1,
            is_sorted(input) ==> cmp_counter as int == n - 1,
        decreases inversions(v@),
    {
        let mut swapped = false;
        let ghost vpass = v@;
        let mut i: usize = 0;
        while i < n - 1
            invariant
                n == v@.len(),
                2 <= n <= 1_000_000,
                input.len() == n,
                i <= n - 1,
                v@.to_multiset() == input.to_multiset(),
                inversions(input) <= 1_000_000_000_000,
                swap_counter as int == inversions(input) - inversions(v@),
                cmp_counter as int == passes * (n - 1) + i,
                0 <= passes,
                passes <= inversions(input) - inversions(vpass),
                inversions(v@) <= inversions(vpass),
                !swapped ==> v@ == vpass,
                !swapped ==> forall|k: int| 0 <= k < i ==> #[trigger] v@[k] <= v@[k + 1],
                swapped ==> inversions(v@) < inversions(vpass),
                is_sorted(input) ==> v@ == input && passes == 0 && !swapped,
            decreases n - 1 - i,
        {
            let vi = v[i];
            let vi1 = v[i + 1];
            if vi > vi1 {
                let ghost vprev = v@;
                v.set(i, vi1);
                v.set(i + 1, vi);
                proof {
                    assert(v@ =~= swap_adj(vprev, i as int));
                    lemma_swap_adj_inversions(vprev, i as int);
                    lemma_swap_adj_multiset(vprev, i as int);
                }
                swapped = true;
                swap_counter = swap_counter + 1;
            }
            proof {
                assert(passes * ((n - 1) as int) + i + 1 < 0xffff_ffff_ffff_ffff)
                    by (nonlinear_arith)
                    requires
                        0 <= passes <= 1_000_000_000_000,
                        0 <= i < n,
                        2 <= n <= 1_000_000,
                {}
            }
            cmp_counter = cmp_counter + 1;
            i = i + 1;
        }
        proof {
            assert((passes + 1) * ((n - 1) as int) == passes * ((n - 1) as int) + (n - 1))
                by (nonlinear_arith);
            passes = passes + 1;
        }
        if !swapped {
            proof {
                lemma_adjacent_implies_sorted(v@);
                assert((passes - 1) * ((n - 1) as int) >= 0) by (nonlinear_arith)
                    requires
                        passes >= 1,
                        n >= 1,
                {}
            }
            break ;
        }
    }
    proof {
        lemma_sorted_inversions_zero(v@);
        if is_sorted(input) {
            lemma_sorted_permutation_unique(v@, input);
        }
        broadcast use vstd::seq_lib::group_to_multiset_ensures;
    }
    Stats { cmp_counter, swap_counter, ordered: v }
}

} // verus!
