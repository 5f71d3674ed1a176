//! Quick sort: partition around the last element as pivot, recurse on the
//! two regions, and concatenate sorted-left, pivot, sorted-right.
//!
//! Cost model: two comparisons per element examined during partitioning and
//! two movements per relocation of an element past the pivot boundary — the
//! cost of a remove-and-reinsert rather than a constant-time swap.  Inputs
//! too short to hold a pair report one comparison, and only the left
//! recursive call's counters are folded into the parent's total; both are
//! quirks of this algorithm's accounting, kept as documented behaviour.

use vstd::prelude::*;

verus! {

use crate::counting::lemma_remove_push_multiset;
use vstd::seq_lib::lemma_multiset_commutative;
use crate::order::{is_sorted, lemma_sorted_permutation_unique};
use crate::stats::Stats;
use crate::vecs::subvec;

/// Holds of the values that stay on the pivot's low side.
pub open spec fn stays_low(p: u32) -> spec_fn(u32) -> bool {
    |e: u32| e <= p
}

/// Holds of the values relocated past the pivot boundary.
pub open spec fn moves_high(p: u32) -> spec_fn(u32) -> bool {
    |e: u32| !(e <= p)
}

/// The quick sort cost model: the sorted sequence, comparisons and
/// movements of a call.  Partitioning around the last element keeps the
/// values at or below it in arrival order, relocates the rest behind it in
/// arrival order, and costs two comparisons per element examined and two
/// movements per relocation; only the left recursion's counters are folded
/// into the total, the documented accounting asymmetry of this algorithm.
pub open spec fn quick_sort_model(s: Seq<u32>) -> (Seq<u32>, nat, nat)
    decreases s.len(),
    via quick_sort_model_decreases
{
    if s.len() < 2 {
        (s, 1, 0)
    } else {
        let pivot = s.last();
        let rest = s.drop_last();
        let lows = rest.filter(stays_low(pivot));
        let highs = rest.filter(moves_high(pivot));
        let (ls, lc, lm) = quick_sort_model(lows);
        (
            ls + seq![pivot] + quick_sort_model(highs).0,
            2 * ((s.len() - 1) as nat) + lc,
            2 * highs.len() + lm,
        )
    }
}

#[via_fn]
proof fn quick_sort_model_decreases(s: Seq<u32>) {
    broadcast use vstd::seq_lib::group_filter_ensures;

    if s.len() >= 2 {
        let pivot = s.last();
        let rest = s.drop_last();
        assert(rest.filter(stays_low(pivot)).len() <= rest.len());
        assert(rest.filter(moves_high(pivot)).len() <= rest.len());
    }
}

/// Sorts `v` ascending by quick sort.
///
/// The cost model above pins the counters exactly; in particular they stay
/// within the quadratic worst case of the partitioning scheme, and on an
/// already-sorted input nothing is relocated and the comparison count
/// collapses to its closed form.
#[verifier::rlimit(100)]
pub fn quick_sort(v: Vec<u32>) -> (r: Stats)
    requires
        v@.len() <= 1_000_000,
    ensures
        r.sorts(v@),
        v@.len() < 2 ==> r.cmp_counter == 1 && r.swap_counter == 0 && r.ordered@ == v@,
        r.cmp_counter as int <= 2 * v@.len() * v@.len() + 1,
        r.swap_counter as int <= 2 * v@.len() * v@.len(),
        is_sorted(v@) ==> r.ordered@ == v@ && r.swap_counter == 0 && r.cmp_counter as int == (
        v@.len() as int) * (v@.len() as int - 1) + 1,
        r.ordered@ == quick_sort_model(v@).0,
        r.cmp_counter as int == quick_sort_model(v@).1,
        r.swap_counter as int == quick_sort_model(v@).2,
    decreases v@.len(),
{
    let ghost input = v@;
    let mut v = v;
    if v.len() < 2 {
        proof {
            if v@.len() == 0 {
                assert((v@.len() as int) * (v@.len() as int - 1) == 0);
            } else {
                assert(v@.len() == 1);
                assert((v@.len() as int) * (v@.len() as int - 1) == 0);
            }
        }
        return Stats { cmp_counter: 1, swap_counter: 0, ordered: v };
    }
    let n = v.len();
    let mut pivot_index = n - 1;
    let mut index: usize = 0;
    let mut cmp_counter: u64 = 0;
    let mut swap_counter: u64 = 0;
    let pivot_value = v[pivot_index];
    let ghost mut scanned: int = 0;
    proof {
        broadcast use vstd::seq_lib::group_filter_ensures;

        assert(input.subrange(0, 0).filter(stays_low(pivot_value)).len() <= 0);
        assert(input.subrange(0, 0).filter(moves_high(pivot_value)).len() <= 0);
        assert(input.subrange(0, 0).filter(stays_low(pivot_value)) =~= Seq::<u32>::empty());
        assert(input.subrange(0, 0).filter(moves_high(pivot_value)) =~= Seq::<u32>::empty());
        assert(v@ =~= input.subrange(0, 0).filter(stays_low(pivot_value)) + input.subrange(
            0,
            n - 1,
        ) + seq![pivot_value] + input.subrange(0, 0).filter(moves_high(pivot_value)));
        assert(pivot_value == input.last());
    }
    while index < pivot_index
        invariant
            n == v@.len(),
            2 <= n <= 1_000_000,
            input.len() == n,
            index <= pivot_index < n,
            v@[pivot_index as int] == pivot_value,
            v@.to_multiset() == input.to_multiset(),
            forall|k: int| 0 <= k < index ==> v@[k] <= pivot_value,
            forall|k: int| pivot_index < k < n ==> v@[k] > pivot_value,
            cmp_counter as int == 2 * ((n - 1) - (pivot_index - index)),
            swap_counter as int == 2 * ((n - 1) - pivot_index),
            is_sorted(input) ==> v@ == input && pivot_index == n - 1,
            0 <= scanned <= n - 1,
            scanned == (n - 1) - (pivot_index - index),
            pivot_value == input.last(),
            index == input.subrange(0, scanned).filter(stays_low(pivot_value)).len(),
            v@ == input.subrange(0, scanned).filter(stays_low(pivot_value)) + input.subrange(
                scanned,
                n - 1,
            ) + seq![pivot_value] + input.subrange(0, scanned).filter(moves_high(pivot_value)),
        decreases pivot_index - index,
    {
        let ghost lows0 = input.subrange(0, scanned).filter(stays_low(pivot_value));
        let ghost highs0 = input.subrange(0, scanned).filter(moves_high(pivot_value));
        proof {
            assert(v@[index as int] == input[scanned]);
            assert(input.subrange(0, scanned + 1) =~= input.subrange(0, scanned).push(
                input[scanned],
            ));
            input.subrange(0, scanned).lemma_filter_push(input[scanned], stays_low(pivot_value));
            input.subrange(0, scanned).lemma_filter_push(input[scanned], moves_high(pivot_value));
        }
        if v[index] > pivot_value {
            proof {
                if is_sorted(input) {
                    assert(input[index as int] <= input[n - 1]);
                }
            }
            let ghost vprev = v@;
            let tmp = v.remove(index);
            v.push(tmp);
            proof {
                lemma_remove_push_multiset(vprev, index as int);
                assert(v@ =~= vprev.remove(index as int).push(vprev[index as int]));
                assert(v@ =~= input.subrange(0, scanned + 1).filter(stays_low(pivot_value))
                    + input.subrange(scanned + 1, n - 1) + seq![pivot_value] + input.subrange(
                    0,
                    scanned + 1,
                ).filter(moves_high(pivot_value)));
            }
            pivot_index = pivot_index - 1;
            swap_counter = swap_counter + 2;
        } else {
            proof {
                assert(v@ =~= input.subrange(0, scanned + 1).filter(stays_low(pivot_value))
                    + input.subrange(scanned + 1, n - 1) + seq![pivot_value] + input.subrange(
                    0,
                    scanned + 1,
                ).filter(moves_high(pivot_value)));
            }
            index = index + 1;
        }
        cmp_counter = cmp_counter + 2;
        proof {
            scanned = scanned + 1;
        }
    }
    let p = pivot_index;
    let left = subvec(&v, 0, p);
    let right = subvec(&v, p + 1, n);
    let ghost leftseq = v@.subrange(0, p as int);
    let ghost rightseq = v@.subrange(p + 1, n as int);
    let ghost lows = input.drop_last().filter(stays_low(pivot_value));
    let ghost highs = input.drop_last().filter(moves_high(pivot_value));
    proof {
        assert(scanned == n - 1);
        assert(input.subrange(0, n - 1) =~= input.drop_last());
        assert(input.subrange(n - 1, n - 1) =~= Seq::<u32>::empty());
        assert(v@ =~= lows + seq![pivot_value] + highs);
        assert(p == lows.len());
        assert(highs.len() == n - 1 - p);
        assert(leftseq =~= lows);
        assert(rightseq =~= highs);
        if is_sorted(input) {
            assert(is_sorted(leftseq)) by {
                assert forall|a: int, b: int|
                    0 <= a <= b < leftseq.len() implies leftseq[a] <= leftseq[b] by {
                    assert(input[a] <= input[b]);
                }
            }
        }
    }
    let left_stats = quick_sort(left);
    let right_stats = quick_sort(right);
    let mut result = left_stats.ordered;
    let mut right_ordered = right_stats.ordered;
    result.push(pivot_value);
    result.append(&mut right_ordered);
    proof {
        broadcast use vstd::seq_lib::group_to_multiset_ensures;

        let lo = left_stats.ordered@;
        let ro = right_stats.ordered@;
        // Every element of the sorted left part stays at or below the pivot,
        // every element of the sorted right part stays above it.
        assert forall|t: int| 0 <= t < lo.len() implies lo[t] <= pivot_value by {
            assert(lo.contains(lo[t]));
            assert(leftseq.to_multiset().count(lo[t]) > 0);
            assert(leftseq.contains(lo[t]));
            let k = choose|k: int| 0 <= k < leftseq.len() && leftseq[k] == lo[t];
            assert(v@[k] <= pivot_value);
        }
        assert forall|t: int| 0 <= t < ro.len() implies ro[t] > pivot_value by {
            assert(ro.contains(ro[t]));
            assert(rightseq.to_multiset().count(ro[t]) > 0);
            assert(rightseq.contains(ro[t]));
            let k = choose|k: int| 0 <= k < rightseq.len() && rightseq[k] == ro[t];
            assert(v@[k + p + 1] > pivot_value);
        }
        assert(result@ == lo.push(pivot_value) + ro);
        assert(is_sorted(result@)) by {
            assert forall|a: int, b: int|
                0 <= a <= b < result@.len() implies result@[a] <= result@[b] by {
                let m = lo.len() as int;
                if a < m && b < m {
                    assert(lo[a] <= lo[b]);
                } else if a < m {
                    assert(lo[a] <= pivot_value);
                    if b > m {
                        assert(ro[b - m - 1] > pivot_value);
                    }
                } else if a == m && b > m {
                    assert(ro[b - m - 1] > pivot_value);
                } else if a > m {
                    assert(ro[a - m - 1] <= ro[b - m - 1]);
                }
            }
        }
        // The three pieces together carry exactly the partitioned values.
        assert(v@ =~= leftseq + (seq![pivot_value] + rightseq));
        lemma_multiset_commutative(leftseq, seq![pivot_value] + rightseq);
        lemma_multiset_commutative(seq![pivot_value], rightseq);
        assert(seq![pivot_value] =~= Seq::<u32>::empty().push(pivot_value));
        lemma_multiset_commutative(lo.push(pivot_value), ro);
        assert(result@.to_multiset() =~= v@.to_multiset()) by {
            assert forall|w: u32| result@.to_multiset().count(w) == v@.to_multiset().count(w) by {}
        }
        // Counter bounds for the aggregated totals.
        assert(2 * (p as int) * (p as int) + 1 + 2 * ((n - 1) as int) <= 2 * (n as int) * (
        n as int)) by (nonlinear_arith)
            requires
                0 <= p as int <= n - 1,
                2 <= n as int,
        {}
        assert(2 * (n as int) * (n as int) <= 2_000_000_000_000) by (nonlinear_arith)
            requires
                2 <= n as int <= 1_000_000,
        {}
        if is_sorted(input) {
            assert(p == n - 1);
            assert(leftseq =~= input.subrange(0, n - 1));
            assert((leftseq.len() as int) * (leftseq.len() as int - 1) + 1 + 2 * ((n - 1) as int)
                == (n as int) * (n as int - 1) + 1) by (nonlinear_arith)
                requires
                    leftseq.len() as int == n - 1,
                    2 <= n as int,
            {}
        }
    }
    cmp_counter = cmp_counter + left_stats.cmp_counter;
    swap_counter = swap_counter + left_stats.swap_counter;
    proof {
        if is_sorted(input) {
            lemma_sorted_permutation_unique(result@, input);
        }
        let model = quick_sort_model(input);
        assert(input.last() == pivot_value);
        assert(model.0 == quick_sort_model(lows).0 + seq![pivot_value] + quick_sort_model(
            highs,
        ).0);
        assert(model.1 == 2 * (input.len() - 1) + quick_sort_model(lows).1);
        assert(model.2 == 2 * highs.len() + quick_sort_model(lows).2);
        assert(result@ =~= left_stats.ordered@ + seq![pivot_value] + right_stats.ordered@);
        assert(result@ == model.0);
        assert(cmp_counter as int == model.1);
        assert(swap_counter as int == model.2);
    }
    Stats { cmp_counter, swap_counter, ordered: result }
}

} // verus!
