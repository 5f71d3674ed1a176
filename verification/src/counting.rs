//! Counting out-of-order pairs.
//!
//! `inversions` counts the pairs of positions that stand in the wrong order.
//! Bubble sort and insertion sort each perform exactly one elementary
//! movement per inversion of their input, and every adjacent swap of an
//! out-of-order pair removes exactly one inversion; the lemmas here state
//! both facts and also serve as the termination argument for bubble sort's
//! outer pass loop.

use vstd::prelude::*;

verus! {

use vstd::multiset::Multiset;
use vstd::seq_lib::lemma_multiset_commutative;
use crate::order::is_sorted;

/// Holds of the values strictly greater than `x`.
pub open spec fn gt_pred(x: u32) -> spec_fn(u32) -> bool {
    |e: u32| e > x
}

/// How many values of the multiset `m` are strictly greater than `x`.
pub open spec fn count_gt(m: Multiset<u32>, x: u32) -> nat {
    m.filter(gt_pred(x)).len()
}

/// The number of inversions of `s`: pairs of positions `i < j` with
/// `s[i] > s[j]`, counted here by how many earlier elements exceed each
/// element in turn.
pub open spec fn inversions(s: Seq<u32>) -> nat
    decreases s.len(),
{
    if s.len() == 0 {
        0
    } else {
        inversions(s.drop_last()) + count_gt(s.drop_last().to_multiset(), s.last())
    }
}

/// How many positions after the first hold a value lying strictly below
/// every earlier one — counted as the positions whose whole prefix exceeds
/// them.  Insertion sort's stopping comparison is saved exactly there.
pub open spec fn strict_minima(s: Seq<u32>) -> nat
    decreases s.len(),
{
    if s.len() <= 1 {
        0
    } else {
        strict_minima(s.drop_last()) + (if count_gt(s.drop_last().to_multiset(), s.last()) == s.len()
            - 1 {
            1nat
        } else {
            0nat
        })
    }
}

/// `s` with the elements at positions `i` and `i + 1` exchanged.
pub open spec fn swap_adj(s: Seq<u32>, i: int) -> Seq<u32>
    recommends
        0 <= i,
        i + 1 < s.len(),
{
    s.update(i, s[i + 1]).update(i + 1, s[i])
}

/// Inserting a value adds one to `count_gt` exactly when the value is
/// greater than the threshold.
pub proof fn lemma_count_gt_insert(m: Multiset<u32>, v: u32, x: u32)
    ensures
        count_gt(m.insert(v), x) == count_gt(m, x) + (if v > x {
            1nat
        } else {
            0nat
        }),
{
    broadcast use vstd::multiset::group_multiset_axioms;
    broadcast use vstd::multiset::group_multiset_properties;

    if v > x {
        assert(m.insert(v).filter(gt_pred(x)) =~= m.filter(gt_pred(x)).insert(v)) by {
            assert(gt_pred(x)(v));
            assert forall|w: u32|
                m.insert(v).filter(gt_pred(x)).count(w) == m.filter(gt_pred(x)).insert(v).count(
                    w,
                ) by {
                    if w == v {
                        assert(m.insert(v).count(v) == m.count(v) + 1);
                    } else {
                        assert(m.insert(v).count(w) == m.count(w));
                    }
                }
        }
    } else {
        assert(m.insert(v).filter(gt_pred(x)) =~= m.filter(gt_pred(x))) by {
            assert(!gt_pred(x)(v));
            assert forall|w: u32|
                m.insert(v).filter(gt_pred(x)).count(w) == m.filter(gt_pred(x)).count(w) by {
                    if w == v {
                        assert(m.insert(v).count(v) == m.count(v) + 1);
                    } else {
                        assert(m.insert(v).count(w) == m.count(w));
                    }
                }
        }
    }
}

/// At most every value of the multiset can exceed the threshold.
pub proof fn lemma_count_gt_le_len(m: Multiset<u32>, x: u32)
    ensures
        count_gt(m, x) <= m.len(),
{
    broadcast use vstd::multiset::group_multiset_axioms;

    let le_pred: spec_fn(u32) -> bool = |e: u32| !(e > x);
    assert(m =~= m.filter(gt_pred(x)).add(m.filter(le_pred))) by {
        assert forall|w: u32|
            m.count(w) == m.filter(gt_pred(x)).add(m.filter(le_pred)).count(w) by {}
    }
    assert(m.len() == m.filter(gt_pred(x)).len() + m.filter(le_pred).len());
}

/// When no element of `s` exceeds `x`, no inversion can end at `x`.
pub proof fn lemma_count_gt_none(s: Seq<u32>, x: u32)
    requires
        forall|k: int| 0 <= k < s.len() ==> s[k] <= x,
    ensures
        count_gt(s.to_multiset(), x) == 0,
{
    broadcast use vstd::multiset::group_multiset_axioms;
    broadcast use vstd::seq_lib::group_to_multiset_ensures;

    assert(s.to_multiset().filter(gt_pred(x)) =~= Multiset::<u32>::empty()) by {
        assert forall|w: u32| s.to_multiset().filter(gt_pred(x)).count(w) == 0 by {
            if gt_pred(x)(w) && s.to_multiset().count(w) > 0 {
                assert(s.contains(w));
                let k = choose|k: int| 0 <= k < s.len() && s[k] == w;
                assert(s[k] <= x);
            }
        }
    }
}

/// Sequences too short to hold a pair have no inversions.
pub proof fn lemma_inversions_short(s: Seq<u32>)
    requires
        s.len() < 2,
    ensures
        inversions(s) == 0,
{
    broadcast use vstd::seq_lib::group_to_multiset_ensures;

    if s.len() == 1 {
        let dl = s.drop_last();
        lemma_count_gt_le_len(dl.to_multiset(), s.last());
        assert(dl.to_multiset().len() == dl.len());
        assert(count_gt(dl.to_multiset(), s.last()) == 0);
        assert(inversions(dl) == 0);
        assert(inversions(s) == inversions(dl) + count_gt(dl.to_multiset(), s.last()));
    }
}

/// When the values not exceeding `x` occupy exactly the positions before
/// `p`, the values exceeding `x` are exactly the remaining ones.
pub proof fn lemma_count_gt_split(s: Seq<u32>, x: u32, p: int)
    requires
        0 <= p <= s.len(),
        forall|k: int| 0 <= k < p ==> s[k] <= x,
        forall|k: int| p <= k < s.len() ==> s[k] > x,
    ensures
        count_gt(s.to_multiset(), x) == s.len() - p,
    decreases s.len(),
{
    broadcast use vstd::seq_lib::group_to_multiset_ensures;

    if p == s.len() {
        lemma_count_gt_none(s, x);
    } else {
        let dl = s.drop_last();
        lemma_count_gt_split(dl, x, p);
        assert(s =~= dl.push(s.last()));
        assert(s.to_multiset() == dl.to_multiset().insert(s.last()));
        lemma_count_gt_insert(dl.to_multiset(), s.last(), x);
    }
}

/// A sorted sequence has no inversions.
pub proof fn lemma_sorted_inversions_zero(s: Seq<u32>)
    requires
        is_sorted(s),
    ensures
        inversions(s) == 0,
    decreases s.len(),
{
    if s.len() > 0 {
        let dl = s.drop_last();
        assert(is_sorted(dl)) by {
            assert forall|i: int, j: int| 0 <= i <= j < dl.len() implies dl[i] <= dl[j] by {
                assert(s[i] <= s[j]);
            }
        }
        lemma_sorted_inversions_zero(dl);
        lemma_count_gt_none(dl, s.last());
    }
}

/// No sequence has more inversions than the square of its length.
pub proof fn lemma_inversions_le_sq(s: Seq<u32>)
    ensures
        inversions(s) <= s.len() * s.len(),
    decreases s.len(),
{
    broadcast use vstd::seq_lib::group_to_multiset_ensures;

    if s.len() > 0 {
        let dl = s.drop_last();
        lemma_inversions_le_sq(dl);
        lemma_count_gt_le_len(dl.to_multiset(), s.last());
        assert(dl.len() * dl.len() + dl.len() <= s.len() * s.len()) by (nonlinear_arith)
            requires
                dl.len() + 1 == s.len(),
        {}
    }
}

/// Exchanging two adjacent elements leaves the multiset of values unchanged.
pub proof fn lemma_swap_adj_multiset(s: Seq<u32>, i: int)
    requires
        0 <= i,
        i + 1 < s.len(),
    ensures
        swap_adj(s, i).to_multiset() == s.to_multiset(),
{
    broadcast use vstd::multiset::group_multiset_axioms;
    broadcast use vstd::seq_lib::group_to_multiset_ensures;

    let n = s.len() as int;
    let a = s[i];
    let b = s[i + 1];
    let t = swap_adj(s, i);
    let pre = s.subrange(0, i);
    let post = s.subrange(i + 2, n);
    assert(s =~= pre + (seq![a, b] + post));
    assert(t =~= pre + (seq![b, a] + post));
    lemma_multiset_commutative(pre, seq![a, b] + post);
    lemma_multiset_commutative(pre, seq![b, a] + post);
    lemma_multiset_commutative(seq![a, b], post);
    lemma_multiset_commutative(seq![b, a], post);
    assert(seq![a, b].to_multiset() =~= seq![b, a].to_multiset()) by {
        assert(seq![a, b] =~= Seq::<u32>::empty().push(a).push(b));
        assert(seq![b, a] =~= Seq::<u32>::empty().push(b).push(a));
        assert(Seq::<u32>::empty().push(a).to_multiset() =~= Multiset::<u32>::empty().insert(a));
        assert(Seq::<u32>::empty().push(b).to_multiset() =~= Multiset::<u32>::empty().insert(b));
        assert forall|w: u32|
            Multiset::<u32>::empty().insert(a).insert(b).count(w) == Multiset::<u32>::empty()
                .insert(b).insert(a).count(w) by {}
    }
}

/// Taking an element out and pushing it onto the end leaves the multiset of
/// values unchanged.
pub proof fn lemma_remove_push_multiset(s: Seq<u32>, i: int)
    requires
        0 <= i < s.len(),
    ensures
        s.remove(i).push(s[i]).to_multiset() == s.to_multiset(),
{
    broadcast use vstd::seq_lib::group_to_multiset_ensures;
    broadcast use vstd::multiset::group_multiset_axioms;

    assert(s.remove(i).to_multiset() =~= s.to_multiset().remove(s[i]));
    assert(s.remove(i).push(s[i]).to_multiset() =~= s.remove(i).to_multiset().insert(s[i]));
    assert(s.contains(s[i]));
    assert(s.to_multiset().count(s[i]) > 0);
    assert(s.to_multiset().remove(s[i]).insert(s[i]) =~= s.to_multiset()) by {
        assert forall|w: u32|
            s.to_multiset().remove(s[i]).insert(s[i]).count(w) == s.to_multiset().count(w) by {}
    }
}

/// `s` with the elements at positions `i` and `j` exchanged.
pub open spec fn swap_at(s: Seq<u32>, i: int, j: int) -> Seq<u32>
    recommends
        0 <= i < s.len(),
        0 <= j < s.len(),
{
    s.update(i, s[j]).update(j, s[i])
}

/// Exchanging any two elements leaves the multiset of values unchanged.
pub proof fn lemma_swap_at_multiset(s: Seq<u32>, i: int, j: int)
    requires
        0 <= i < j < s.len(),
    ensures
        swap_at(s, i, j).to_multiset() == s.to_multiset(),
{
    broadcast use vstd::multiset::group_multiset_axioms;

    let n = s.len() as int;
    let a = s[i];
    let b = s[j];
    let t = swap_at(s, i, j);
    let pre = s.subrange(0, i);
    let mid = s.subrange(i + 1, j);
    let post = s.subrange(j + 1, n);
    assert(s =~= pre + (seq![a] + (mid + (seq![b] + post))));
    assert(t =~= pre + (seq![b] + (mid + (seq![a] + post))));
    lemma_multiset_commutative(pre, seq![a] + (mid + (seq![b] + post)));
    lemma_multiset_commutative(seq![a], mid + (seq![b] + post));
    lemma_multiset_commutative(mid, seq![b] + post);
    lemma_multiset_commutative(seq![b], post);
    lemma_multiset_commutative(pre, seq![b] + (mid + (seq![a] + post)));
    lemma_multiset_commutative(seq![b], mid + (seq![a] + post));
    lemma_multiset_commutative(mid, seq![a] + post);
    lemma_multiset_commutative(seq![a], post);
    assert(t.to_multiset() =~= s.to_multiset()) by {
        assert forall|w: u32| t.to_multiset().count(w) == s.to_multiset().count(w) by {}
    }
}

/// Exchanging an adjacent out-of-order pair removes exactly one inversion.
pub proof fn lemma_swap_adj_inversions(s: Seq<u32>, i: int)
    requires
        0 <= i,
        i + 1 < s.len(),
        s[i] > s[i + 1],
    ensures
        inversions(swap_adj(s, i)) + 1 == inversions(s),
    decreases s.len(),
{
    broadcast use vstd::seq_lib::group_to_multiset_ensures;

    let n = s.len() as int;
    let a = s[i];
    let b = s[i + 1];
    let t = swap_adj(s, i);
    if i + 2 == n {
        let dl = s.drop_last();
        let ddl = dl.drop_last();
        assert(dl =~= ddl.push(a));
        assert(dl.to_multiset() == ddl.to_multiset().insert(a));
        assert(dl.drop_last() =~= ddl);
        assert(dl.last() == a);
        assert(s.last() == b);
        assert(inversions(s) == inversions(dl) + count_gt(dl.to_multiset(), b));
        assert(inversions(dl) == inversions(dl.drop_last()) + count_gt(
            dl.drop_last().to_multiset(),
            dl.last(),
        ));
        assert(inversions(dl) == inversions(ddl) + count_gt(ddl.to_multiset(), a));
        lemma_count_gt_insert(ddl.to_multiset(), a, b);
        let tdl = t.drop_last();
        assert(tdl =~= ddl.push(b));
        assert(t.last() == a);
        assert(tdl.drop_last() =~= ddl);
        assert(tdl.last() == b);
        assert(tdl.to_multiset() == ddl.to_multiset().insert(b));
        assert(tdl.len() > 0);
        assert(inversions(tdl) == inversions(tdl.drop_last()) + count_gt(
            tdl.drop_last().to_multiset(),
            tdl.last(),
        ));
        assert(inversions(tdl) == inversions(ddl) + count_gt(ddl.to_multiset(), b));
        assert(t.len() > 0);
        assert(inversions(t) == inversions(tdl) + count_gt(tdl.to_multiset(), a));
        lemma_count_gt_insert(ddl.to_multiset(), b, a);
    } else {
        let dl = s.drop_last();
        assert(t.drop_last() =~= swap_adj(dl, i));
        assert(t.last() == s.last());
        lemma_swap_adj_inversions(dl, i);
        lemma_swap_adj_multiset(dl, i);
        assert(inversions(t) == inversions(swap_adj(dl, i)) + count_gt(
            swap_adj(dl, i).to_multiset(),
            t.last(),
        ));
        assert(inversions(s) == inversions(dl) + count_gt(dl.to_multiset(), s.last()));
    }
}

} // verus!
