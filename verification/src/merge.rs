//! Merge sort: split at the midpoint, recursively sort the halves, then
//! combine them — by plain concatenation when the halves already stand in
//! order, otherwise by interleaving their fronts.
//!
//! Cost model: the split itself counts one movement per element; the
//! interleave counts one comparison and one movement per step and one
//! movement per element of the exhausted remainder; the concatenation fast
//! paths count nothing.  Each call folds both recursive calls' counters into
//! its own.

use vstd::prelude::*;

verus! {

use vstd::seq_lib::lemma_multiset_commutative;
use crate::order::{is_sorted, lemma_sorted_permutation_unique};
use crate::stats::Stats;
use crate::vecs::subvec;

/// What interleaving two runs front-by-front produces: the merged sequence,
/// the comparisons made (one per step while both runs are live) and the
/// movements made (one per step, plus one per element of the remainder that
/// is appended whole once a run is exhausted).
pub open spec fn merge_fronts(l: Seq<u32>, r: Seq<u32>) -> (Seq<u32>, nat, nat)
    decreases l.len() + r.len(),
{
    if l.len() == 0 {
        (r, 0, r.len())
    } else if r.len() == 0 {
        (l, 0, l.len())
    } else if l[0] <= r[0] {
        let (s, c, m) = merge_fronts(l.drop_first(), r);
        (seq![l[0]] + s, c + 1, m + 1)
    } else {
        let (s, c, m) = merge_fronts(l, r.drop_first());
        (seq![r[0]] + s, c + 1, m + 1)
    }
}

/// The merge sort cost model: the sorted sequence, comparisons and
/// movements of a call, each parent folding both children's totals into its
/// own local work — the split pays one movement per element, an ordered or
/// reversed pair of halves is concatenated for free, and anything else pays
/// for the interleave.
pub open spec fn merge_sort_model(s: Seq<u32>) -> (Seq<u32>, nat, nat)
    decreases s.len(),
{
    if s.len() < 2 {
        (s, 0, 0)
    } else {
        let mid = s.len() as int / 2;
        let (ls, lc, lm) = merge_sort_model(s.subrange(0, mid));
        let (rs, rc, rm) = merge_sort_model(s.subrange(mid, s.len() as int));
        let cmp0 = lc + rc;
        let moves0 = s.len() + lm + rm;
        if ls.last() <= rs.first() {
            (ls + rs, cmp0, moves0)
        } else if ls.first() >= rs.last() {
            (rs + ls, cmp0, moves0)
        } else {
            let (ms, mc, mm) = merge_fronts(ls, rs);
            (ms, cmp0 + mc, moves0 + mm)
        }
    }
}

/// Sorts `v` ascending by merge sort.
///
/// Counters stay within the quadratic worst case; every input holding at
/// least a pair pays at least one movement per element for the split, and
/// an already-sorted input is recombined by the concatenation fast path
/// alone, with no comparison at all.
#[verifier::rlimit(100)]
pub fn merge_sort(v: Vec<u32>) -> (r: Stats)
    requires
        v@.len() <= 1_000_000,
    ensures
        r.sorts(v@),
        v@.len() < 2 ==> r.cmp_counter == 0 && r.swap_counter == 0 && r.ordered@ == v@,
        r.cmp_counter as int <= (v@.len() as int) * (v@.len() as int),
        r.swap_counter as int <= 2 * ((v@.len() as int) * (v@.len() as int)),
        v@.len() >= 2 ==> r.swap_counter >= v@.len(),
        is_sorted(v@) ==> r.ordered@ == v@ && r.cmp_counter == 0,
        r.ordered@ == merge_sort_model(v@).0,
        r.cmp_counter as int == merge_sort_model(v@).1,
        r.swap_counter as int == merge_sort_model(v@).2,
    decreases v@.len(),
{
    let ghost input = v@;
    if v.len() < 2 {
        proof {
            assert((v@.len() as int) * (v@.len() as int) >= 0) by (nonlinear_arith);
        }
        return Stats { cmp_counter: 0, swap_counter: 0, ordered: v };
    }
    let n = v.len();
    let middle = n / 2;
    let left = subvec(&v, 0, middle);
    let right = subvec(&v, middle, n);
    let ghost linput = input.subrange(0, middle as int);
    let ghost rinput = input.subrange(middle as int, n as int);
    proof {
        assert(input =~= linput + rinput);
        lemma_multiset_commutative(linput, rinput);
        if is_sorted(input) {
            assert forall|a: int, b: int|
                0 <= a <= b < linput.len() implies linput[a] <= linput[b] by {
                assert(input[a] <= input[b]);
            }
            assert forall|a: int, b: int|
                0 <= a <= b < rinput.len() implies rinput[a] <= rinput[b] by {
                assert(input[middle + a] <= input[middle + b]);
            }
        }
    }
    let left_stats = merge_sort(left);
    let right_stats = merge_sort(right);
    let ghost a = middle as int;
    let ghost b = n - middle as int;
    proof {
        assert(left_stats.cmp_counter as int <= a * a);
        assert(right_stats.cmp_counter as int <= b * b);
        assert(left_stats.swap_counter as int <= 2 * (a * a));
        assert(right_stats.swap_counter as int <= 2 * (b * b));
        assert(a * a <= 1_000_000_000_000 && b * b <= 1_000_000_000_000 && a * a + b * b + n <= (
        n as int) * (n as int) && 2 * (a * a) + 2 * (b * b) + 2 * (n as int) <= 2 * ((n as int) * (
        n as int)) && (n as int) * (n as int) <= 1_000_000_000_000) by (nonlinear_arith)
            requires
                a + b == n as int,
                1 <= a <= 1_000_000,
                1 <= b <= 1_000_000,
                2 <= n as int <= 1_000_000,
        {}
    }
    let mut cmp_counter: u64 = left_stats.cmp_counter + right_stats.cmp_counter;
    let mut swap_counter: u64 = (n as u64) + left_stats.swap_counter + right_stats.swap_counter;
    let ghost model = merge_sort_model(input);
    let mut lv = left_stats.ordered;
    let mut rv = right_stats.ordered;
    proof {
        assert(linput == input.subrange(0, input.len() as int / 2));
        assert(rinput == input.subrange(input.len() as int / 2, input.len() as int));
        assert(merge_sort_model(linput).0 == lv@);
        assert(merge_sort_model(rinput).0 == rv@);
        assert(merge_sort_model(linput).1 == left_stats.cmp_counter as nat);
        assert(merge_sort_model(rinput).1 == right_stats.cmp_counter as nat);
        assert(merge_sort_model(linput).2 == left_stats.swap_counter as nat);
        assert(merge_sort_model(rinput).2 == right_stats.swap_counter as nat);
        if is_sorted(input) {
            assert(lv@ == linput && rv@ == rinput);
            assert(lv@[a - 1] == input[a - 1] && rv@[0] == input[a]);
        }
    }
    if lv[lv.len() - 1] <= rv[0] {
        let ghost l0 = lv@;
        let ghost r0 = rv@;
        lv.append(&mut rv);
        proof {
            lemma_multiset_commutative(l0, r0);
            assert(is_sorted(lv@)) by {
                assert forall|x: int, y: int| 0 <= x <= y < lv@.len() implies lv@[x] <= lv@[y] by {
                    if x < a && y >= a {
                        assert(l0[x] <= l0[a - 1]);
                        assert(r0[0] <= r0[y - a]);
                    }
                }
            }
            if is_sorted(input) {
                assert(lv@ =~= input);
            }
            assert(l0.last() <= r0.first());
            assert(model.0 == l0 + r0);
            assert(model.1 as int == cmp_counter as int);
            assert(model.2 as int == swap_counter as int);
        }
        return Stats { cmp_counter, swap_counter, ordered: lv };
    }
    if lv[0] >= rv[rv.len() - 1] {
        let ghost l0 = lv@;
        let ghost r0 = rv@;
        rv.append(&mut lv);
        proof {
            lemma_multiset_commutative(r0, l0);
            lemma_multiset_commutative(l0, r0);
            assert(rv@.to_multiset() =~= input.to_multiset()) by {
                assert forall|w: u32|
                    rv@.to_multiset().count(w) == input.to_multiset().count(w) by {}
            }
            assert(is_sorted(rv@)) by {
                assert forall|x: int, y: int| 0 <= x <= y < rv@.len() implies rv@[x] <= rv@[y] by {
                    if x < b && y >= b {
                        assert(r0[x] <= r0[b - 1]);
                        assert(l0[0] <= l0[y - b]);
                    }
                }
            }
            assert(!(l0.last() <= r0.first()));
            assert(l0.first() >= r0.last());
            assert(model.0 == r0 + l0);
            assert(model.1 as int == cmp_counter as int);
            assert(model.2 as int == swap_counter as int);
        }
        return Stats { cmp_counter, swap_counter, ordered: rv };
    }
    let mut result: Vec<u32> = Vec::new();
    let ghost cmp_pre = cmp_counter as int;
    let ghost swap_pre = swap_counter as int;
    let ghost tri = merge_fronts(lv@, rv@);
    proof {
        broadcast use vstd::seq_lib::group_to_multiset_ensures;

        lemma_multiset_commutative(lv@, rv@);
        assert(!(lv@.last() <= rv@.first()) && !(lv@.first() >= rv@.last()));
        assert(model.0 == tri.0);
        assert(model.1 as int == cmp_pre + tri.1);
        assert(model.2 as int == swap_pre + tri.2);
        assert(result@ + merge_fronts(lv@, rv@).0 =~= merge_fronts(lv@, rv@).0);
    }
    while lv.len() > 0 && rv.len() > 0
        invariant
            result@.len() + lv@.len() + rv@.len() == n,
            2 <= n <= 1_000_000,
            input.len() == n,
            is_sorted(result@),
            is_sorted(lv@),
            is_sorted(rv@),
            result@.to_multiset().add(lv@.to_multiset()).add(rv@.to_multiset())
                == input.to_multiset(),
            forall|x: int, y: int|
                0 <= x < result@.len() && 0 <= y < lv@.len() ==> result@[x] <= lv@[y],
            forall|x: int, y: int|
                0 <= x < result@.len() && 0 <= y < rv@.len() ==> result@[x] <= rv@[y],
            cmp_counter as int == cmp_pre + result@.len(),
            swap_counter as int == swap_pre + result@.len(),
            cmp_pre + n <= 2_100_000_000_000,
            swap_pre + n <= 4_100_000_000_000,
            tri.0 == result@ + merge_fronts(lv@, rv@).0,
            tri.1 == result@.len() + merge_fronts(lv@, rv@).1,
            tri.2 == result@.len() + merge_fronts(lv@, rv@).2,
        decreases lv@.len() + rv@.len(),
    {
        proof {
            broadcast use vstd::seq_lib::group_to_multiset_ensures;
        }
        if lv[0] <= rv[0] {
            let ghost l0 = lv@;
            let ghost res0 = result@;
            let x = lv.remove(0);
            result.push(x);
            proof {
                assert(l0.remove(0) == lv@);
                assert(l0[0] == x);
                assert(l0.contains(x));
                assert(l0.to_multiset().count(x) > 0);
                assert(forall|y: int| 0 <= y < lv@.len() ==> x <= #[trigger] lv@[y]);
                assert(forall|y: int| 0 <= y < rv@.len() ==> x <= #[trigger] rv@[y]);
                assert(l0.remove(0) =~= l0.drop_first());
                assert(merge_fronts(l0, rv@).0 == seq![x] + merge_fronts(lv@, rv@).0);
                assert(merge_fronts(l0, rv@).1 == merge_fronts(lv@, rv@).1 + 1);
                assert(merge_fronts(l0, rv@).2 == merge_fronts(lv@, rv@).2 + 1);
                assert(res0.push(x) + merge_fronts(lv@, rv@).0 =~= res0 + (seq![x] + merge_fronts(
                    lv@,
                    rv@,
                ).0));
            }
        } else {
            let ghost r0 = rv@;
            let ghost res0 = result@;
            let x = rv.remove(0);
            result.push(x);
            proof {
                assert(r0.remove(0) == rv@);
                assert(r0[0] == x);
                assert(r0.contains(x));
                assert(r0.to_multiset().count(x) > 0);
                assert(forall|y: int| 0 <= y < rv@.len() ==> x <= #[trigger] rv@[y]);
                assert(forall|y: int| 0 <= y < lv@.len() ==> x <= #[trigger] lv@[y]);
                assert(r0.remove(0) =~= r0.drop_first());
                assert(merge_fronts(lv@, r0).0 == seq![x] + merge_fronts(lv@, rv@).0);
                assert(merge_fronts(lv@, r0).1 == merge_fronts(lv@, rv@).1 + 1);
                assert(merge_fronts(lv@, r0).2 == merge_fronts(lv@, rv@).2 + 1);
                assert(res0.push(x) + merge_fronts(lv@, rv@).0 =~= res0 + (seq![x] + merge_fronts(
                    lv@,
                    rv@,
                ).0));
            }
        }
        proof {
            assert(result@.to_multiset().add(lv@.to_multiset()).add(rv@.to_multiset()) =~= input
                .to_multiset());
        }
        cmp_counter = cmp_counter + 1;
        swap_counter = swap_counter + 1;
    }
    proof {
        broadcast use vstd::seq_lib::group_to_multiset_ensures;

        if lv@.len() > 0 {
            assert(merge_fronts(lv@, rv@).0 == lv@);
            assert(merge_fronts(lv@, rv@).1 == 0);
            assert(merge_fronts(lv@, rv@).2 == lv@.len());
        } else if rv@.len() > 0 {
            assert(merge_fronts(lv@, rv@).0 == rv@);
            assert(merge_fronts(lv@, rv@).1 == 0);
            assert(merge_fronts(lv@, rv@).2 == rv@.len());
        } else {
            assert(merge_fronts(lv@, rv@).0 == rv@);
            assert(result@ + rv@ =~= result@);
        }
    }
    if lv.len() > 0 {
        swap_counter = swap_counter + (lv.len() as u64);
        let ghost res0 = result@;
        let ghost lsnap = lv@;
        result.append(&mut lv);
        proof {
            lemma_multiset_commutative(res0, lsnap);
        }
    }
    if rv.len() > 0 {
        swap_counter = swap_counter + (rv.len() as u64);
        let ghost res0 = result@;
        let ghost rsnap = rv@;
        result.append(&mut rv);
        proof {
            lemma_multiset_commutative(res0, rsnap);
        }
    }
    proof {
        broadcast use vstd::multiset::group_multiset_axioms;
        broadcast use vstd::seq_lib::group_to_multiset_ensures;

        assert(result@.to_multiset() =~= input.to_multiset()) by {
            assert forall|w: u32| result@.to_multiset().count(w) == input.to_multiset().count(
                w,
            ) by {}
        }
        if is_sorted(input) {
            lemma_sorted_permutation_unique(result@, input);
        }
        assert(result@ == tri.0);
        assert(cmp_counter as int == model.1);
        assert(swap_counter as int == model.2);
    }
    Stats { cmp_counter, swap_counter, ordered: result }
}

} // verus!
