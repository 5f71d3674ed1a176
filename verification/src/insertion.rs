//! Insertion sort: grow a sorted prefix by holding the next element, shifting
//! the greater prefix elements one place right, and dropping the held element
//! into the slot that opens up.
//!
//! Cost model: one comparison per leftward step of the scan, including the
//! step that stops it; one movement per element shifted.  Each shift removes
//! one inversion of the input, so the movement total equals the input's
//! inversion count, and the comparison total exceeds it by one per scan
//! except where the scan runs off the left end — at the positions holding a
//! strict new minimum.  The contract states both totals exactly.

use vstd::prelude::*;

verus! {

use vstd::seq_lib::lemma_multiset_commutative;
use crate::counting::{
    count_gt,
    inversions,
    lemma_count_gt_split,
    lemma_inversions_le_sq,
    lemma_inversions_short,
    strict_minima,
};
use crate::order::{is_sorted, lemma_sorted_permutation_unique};
use crate::stats::Stats;

/// Sorts `v` ascending by insertion sort.
///
/// The movement count equals the number of inversions of the input, and the
/// comparison count exceeds it by at most one per element after the first;
/// on an already-sorted input the scans stop immediately, costing exactly
/// one comparison per element after the first and no movement.
#[verifier::rlimit(100)]
pub fn insertion_sort(v: Vec<u32>) -> (r: Stats)
    requires
        v@.len() <= 1_000_000,
    ensures
        r.sorts(v@),
        r.swap_counter == inversions(v@),
        v@.len() < 2 ==> r.cmp_counter == 0 && r.ordered@ == v@,
        v@.len() >= 2 ==> r.cmp_counter as int == inversions(v@) + v@.len() - 1 - strict_minima(
            v@,
        ),
        v@.len() >= 2 ==> r.cmp_counter <= r.swap_counter + v@.len() - 1,
        v@.len() >= 2 ==> r.cmp_counter >= r.swap_counter,
        v@.len() >= 2 ==> r.cmp_counter >= v@.len() - 1,
        is_sorted(v@) ==> r.ordered@ == v@,
        is_sorted(v@) ==> r.cmp_counter == (if v@.len() < 2 {
            0int
        } else {
            v@.len() - 1
        }),
{
    let ghost input = v@;
    let mut v = v;
    let mut cmp_counter: u64 = 0;
    let mut swap_counter: u64 = 0;
    if v.len() < 2 {
        proof {
            lemma_inversions_short(input);
        }
        return Stats { cmp_counter, swap_counter, ordered: v };
    }
    let n = v.len();
    proof {
        lemma_inversions_short(input.subrange(0, 1));
        assert(strict_minima(input.subrange(0, 1)) == 0);
    }
    let mut i: usize = 0;
    while i < n - 1
        invariant
            n == v@.len(),
            2 <= n <= 1_000_000,
            input.len() == n,
            i <= n - 1,
            v@.subrange(i + 1, n as int) == input.subrange(i + 1, n as int),
            v@.subrange(0, i + 1).to_multiset() == input.subrange(0, i + 1).to_multiset(),
            forall|a: int, b: int| 0 <= a <= b <= i ==> v@[a] <= v@[b],
            swap_counter == inversions(input.subrange(0, i + 1)),
            cmp_counter as int == inversions(input.subrange(0, i + 1)) + i - strict_minima(
                input.subrange(0, i + 1),
            ),
            swap_counter <= 1_000_000_000_000,
            cmp_counter >= swap_counter,
            cmp_counter <= swap_counter + i,
            cmp_counter as int >= i,
            is_sorted(input) ==> v@ == input && swap_counter == 0 && cmp_counter == i,
        decreases n - 1 - i,
    {
        let ghost s0 = v@;
        let ghost swap0 = swap_counter as int;
        let ghost cmp0 = cmp_counter as int;
        let cur = v[i + 1];
        let mut insert_on = i + 1;
        let mut j = i;
        proof {
            assert(s0.subrange(i + 1, n as int)[0] == s0[i + 1]);
            assert(input.subrange(i + 1, n as int)[0] == input[i + 1]);
            assert(s0[i + 1] == input[i + 1]);
        }
        loop
            invariant_except_break
                n == v@.len(),
                2 <= n <= 1_000_000,
                i + 1 < n,
                j <= i,
                insert_on == j + 1,
                cur == s0[i + 1],
                forall|a: int, b: int| 0 <= a <= b <= i ==> s0[a] <= s0[b],
                forall|k: int| 0 <= k <= insert_on ==> v@[k] == s0[k],
                forall|k: int| insert_on < k <= i + 1 ==> v@[k] == s0[k - 1],
                forall|k: int| i + 1 < k < n ==> v@[k] == s0[k],
                forall|k: int| insert_on <= k < i + 1 ==> s0[k] > cur,
                swap_counter as int == swap0 + (i + 1 - insert_on),
                cmp_counter as int == cmp0 + (i - j),
                swap0 <= 1_000_000_000_000,
                cmp0 <= swap0 + i,
                cmp0 >= swap0,
            ensures
                n == v@.len(),
                insert_on <= i + 1,
                cur == s0[i + 1],
                forall|k: int| 0 <= k <= insert_on ==> v@[k] == s0[k],
                forall|k: int| insert_on < k <= i + 1 ==> v@[k] == s0[k - 1],
                forall|k: int| i + 1 < k < n ==> v@[k] == s0[k],
                forall|k: int| insert_on <= k < i + 1 ==> s0[k] > cur,
                insert_on > 0 ==> s0[insert_on - 1] <= cur,
                swap_counter as int == swap0 + (i + 1 - insert_on),
                cmp_counter as int == cmp0 + (i + 1 - insert_on) + (if insert_on > 0 {
                    1int
                } else {
                    0int
                }),
            decreases j,
        {
            let vj = v[j];
            cmp_counter = cmp_counter + 1;
            if vj > cur {
                let ghost vprev = v@;
                v.set(j + 1, vj);
                proof {
                    assert(vj == s0[j as int]);
                    assert(v@ == vprev.update(j + 1, vj));
                }
                swap_counter = swap_counter + 1;
                insert_on = j;
                if j == 0 {
                    break ;
                }
                j = j - 1;
            } else {
                break ;
            }
        }
        v.set(insert_on, cur);
        proof {
            let ii = i as int;
            let io = insert_on as int;
            let newpref = v@.subrange(0, ii + 2);
            let oldpref = s0.subrange(0, ii + 1);
            assert(v@ =~= s0.subrange(0, io) + (seq![cur] + (s0.subrange(io, ii + 1)
                + s0.subrange(ii + 2, n as int))));
            assert(newpref =~= s0.subrange(0, io) + (seq![cur] + s0.subrange(io, ii + 1)));
            assert(v@.subrange(ii + 2, n as int) =~= s0.subrange(ii + 2, n as int));
            assert(v@.subrange(ii + 2, n as int) == input.subrange(ii + 2, n as int)) by {
                assert(s0.subrange(ii + 2, n as int) =~= s0.subrange(ii + 1, n as int).subrange(
                    1,
                    n - ii - 1,
                ));
                assert(input.subrange(ii + 2, n as int) =~= input.subrange(ii + 1, n as int)
                    .subrange(1, n - ii - 1));
            }
            // The new prefix is sorted.
            assert(forall|a: int, b: int| 0 <= a <= b <= ii + 1 ==> v@[a] <= v@[b]) by {
                assert forall|a: int, b: int| 0 <= a <= b <= ii + 1 implies v@[a] <= v@[b] by {
                    let va = if a == io {
                        cur
                    } else if a < io {
                        s0[a]
                    } else {
                        s0[a - 1]
                    };
                    assert(v@[a] == va);
                    let vb = if b == io {
                        cur
                    } else if b < io {
                        s0[b]
                    } else {
                        s0[b - 1]
                    };
                    assert(v@[b] == vb);
                    if a < io && b == io {
                        assert(s0[io - 1] <= cur);
                        assert(s0[a] <= s0[io - 1]);
                    } else if a == io && b > io {
                        assert(s0[b - 1] > cur);
                    } else if a < io && b > io {
                        assert(s0[io - 1] <= cur);
                        assert(s0[a] <= s0[io - 1]);
                        assert(s0[b - 1] > cur);
                    }
                }
            }
            // The new prefix carries the same values as the input prefix.
            assert(newpref.to_multiset() == input.subrange(0, ii + 2).to_multiset()) by {
                broadcast use vstd::seq_lib::group_to_multiset_ensures;

                assert(oldpref =~= s0.subrange(0, io) + s0.subrange(io, ii + 1));
                lemma_multiset_commutative(s0.subrange(0, io), s0.subrange(io, ii + 1));
                lemma_multiset_commutative(seq![cur], s0.subrange(io, ii + 1));
                lemma_multiset_commutative(
                    s0.subrange(0, io),
                    seq![cur] + s0.subrange(io, ii + 1),
                );
                assert(seq![cur].to_multiset() =~= Seq::<u32>::empty().push(cur).to_multiset());
                assert(newpref.to_multiset() =~= oldpref.to_multiset().insert(cur));
                assert(input.subrange(0, ii + 2) =~= input.subrange(0, ii + 1).push(input[ii + 1]));
                assert(input.subrange(0, ii + 2).to_multiset() == input.subrange(0, ii + 1)
                    .to_multiset().insert(input[ii + 1]));
                assert(oldpref.to_multiset() == input.subrange(0, ii + 1).to_multiset());
            }
            // The shifts performed equal the inversions the new element adds.
            assert(swap_counter as int == inversions(input.subrange(0, ii + 2))) by {
                lemma_count_gt_split(oldpref, cur, io);
                assert(count_gt(oldpref.to_multiset(), cur) == ii + 1 - io);
                assert(input.subrange(0, ii + 2).drop_last() =~= input.subrange(0, ii + 1));
                assert(input.subrange(0, ii + 2).last() == input[ii + 1]);
                assert(inversions(input.subrange(0, ii + 2)) == inversions(
                    input.subrange(0, ii + 1),
                ) + count_gt(input.subrange(0, ii + 1).to_multiset(), input[ii + 1]));
            }
            // The stopping comparison is saved exactly at a strict minimum.
            assert(cmp_counter as int == inversions(input.subrange(0, ii + 2)) + (ii + 1)
                - strict_minima(input.subrange(0, ii + 2))) by {
                lemma_count_gt_split(oldpref, cur, io);
                assert(oldpref.to_multiset() == input.subrange(0, ii + 1).to_multiset());
                assert(count_gt(input.subrange(0, ii + 1).to_multiset(), input[ii + 1]) == ii + 1
                    - io);
                assert(input.subrange(0, ii + 2).drop_last() =~= input.subrange(0, ii + 1));
                assert(input.subrange(0, ii + 2).last() == input[ii + 1]);
                assert(strict_minima(input.subrange(0, ii + 2)) == strict_minima(
                    input.subrange(0, ii + 1),
                ) + (if count_gt(input.subrange(0, ii + 1).to_multiset(), input[ii + 1]) == ii + 1 {
                    1nat
                } else {
                    0nat
                }));
            }
            lemma_inversions_le_sq(input.subrange(0, ii + 2));
            assert((ii + 2) * (ii + 2) <= 1_000_000_000_000) by (nonlinear_arith)
                requires
                    0 <= ii,
                    ii + 2 <= 1_000_000,
            {}
            if is_sorted(input) {
                assert(io == ii + 1) by {
                    if io < ii + 1 {
                        assert(s0[io] > cur);
                        assert(input[io] <= input[ii + 1]);
                    }
                }
                assert(v@ =~= s0);
            }
        }
        i = i + 1;
    }
    proof {
        assert(v@.subrange(0, n as int) =~= v@);
        assert(input.subrange(0, n as int) =~= input);
        broadcast use vstd::seq_lib::group_to_multiset_ensures;

        if is_sorted(input) {
            lemma_sorted_permutation_unique(v@, input);
        }
    }
    Stats { cmp_counter, swap_counter, ordered: v }
}

} // verus!
