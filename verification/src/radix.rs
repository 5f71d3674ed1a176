//! Radix sort: ten passes over the decimal digit positions of `u32`, least
//! significant first.  Each pass distributes the elements over ten buckets
//! keyed by the digit at that position, keeping arrival order within a
//! bucket, then concatenates the buckets in digit order.
//!
//! Cost model: four movements per element per pass — divide, remainder,
//! lookup and insert — and one movement per bucket drained.  The pass count
//! is fixed by the width of the element type, never by the data, so the
//! counters depend on the length alone and the contract states them exactly.
//! Inputs too short to hold a pair report one comparison and skip the
//! passes, as with quick sort.

use vstd::prelude::*;

verus! {

use vstd::multiset::Multiset;
use vstd::seq_lib::lemma_multiset_commutative;
use crate::digits::{
    digit_at,
    lemma_digit_le_low,
    lemma_digit_lt_low,
    lemma_low_breakdown,
    lemma_pow10_mono,
    lemma_pow10_pos,
    lemma_pow10_ten,
    lemma_sorted_low_full,
    lemma_sorted_low_zero,
    low,
    pow10,
    sorted_low,
};
use crate::order::{is_sorted, lemma_sorted_permutation_unique};
use crate::stats::Stats;

/// All the values held by a sequence of buckets, as one multiset.
pub open spec fn buckets_ms(bs: Seq<Vec<u32>>) -> Multiset<u32>
    decreases bs.len(),
{
    if bs.len() == 0 {
        Multiset::empty()
    } else {
        buckets_ms(bs.drop_last()).add(bs.last()@.to_multiset())
    }
}

/// `buckets_ms` only reads the buckets' contents.
proof fn lemma_buckets_ms_congruence(a: Seq<Vec<u32>>, b: Seq<Vec<u32>>)
    requires
        a.len() == b.len(),
        forall|j: int| 0 <= j < a.len() ==> a[j]@ == b[j]@,
    ensures
        buckets_ms(a) == buckets_ms(b),
    decreases a.len(),
{
    if a.len() > 0 {
        lemma_buckets_ms_congruence(a.drop_last(), b.drop_last());
        assert(a.last()@ == b.last()@);
    }
}

/// Pushing one value into one bucket inserts it into the combined contents.
proof fn lemma_buckets_ms_update(bs: Seq<Vec<u32>>, bs2: Seq<Vec<u32>>, k: int, x: u32)
    requires
        0 <= k < bs.len(),
        bs2.len() == bs.len(),
        forall|j: int| 0 <= j < bs.len() && j != k ==> bs2[j]@ == bs[j]@,
        bs2[k]@ == bs[k]@.push(x),
    ensures
        buckets_ms(bs2) == buckets_ms(bs).insert(x),
    decreases bs.len(),
{
    broadcast use vstd::multiset::group_multiset_axioms;
    broadcast use vstd::seq_lib::group_to_multiset_ensures;

    if k == bs.len() - 1 {
        lemma_buckets_ms_congruence(bs.drop_last(), bs2.drop_last());
        assert(bs2.last()@.to_multiset() =~= bs.last()@.to_multiset().insert(x));
        assert(buckets_ms(bs.drop_last()).add(bs.last()@.to_multiset().insert(x)) =~= buckets_ms(
            bs,
        ).insert(x)) by {
            assert forall|w: u32|
                buckets_ms(bs.drop_last()).add(bs.last()@.to_multiset().insert(x)).count(w)
                    == buckets_ms(bs).insert(x).count(w) by {}
        }
    } else {
        lemma_buckets_ms_update(bs.drop_last(), bs2.drop_last(), k, x);
        assert(bs2.last()@ == bs.last()@);
        assert(buckets_ms(bs.drop_last()).insert(x).add(bs.last()@.to_multiset()) =~= buckets_ms(
            bs,
        ).insert(x)) by {
            assert forall|w: u32|
                buckets_ms(bs.drop_last()).insert(x).add(bs.last()@.to_multiset()).count(w)
                    == buckets_ms(bs).insert(x).count(w) by {}
        }
    }
}

/// The combined contents split off the front bucket.
proof fn lemma_buckets_ms_front(bs: Seq<Vec<u32>>)
    requires
        bs.len() >= 1,
    ensures
        buckets_ms(bs) == bs[0]@.to_multiset().add(buckets_ms(bs.subrange(1, bs.len() as int))),
    decreases bs.len(),
{
    broadcast use vstd::multiset::group_multiset_axioms;

    let rest = bs.subrange(1, bs.len() as int);
    if bs.len() == 1 {
        assert(rest.len() == 0);
        assert(bs.drop_last().len() == 0);
        assert(buckets_ms(bs.drop_last()) == Multiset::<u32>::empty());
        assert(buckets_ms(rest) == Multiset::<u32>::empty());
        assert(bs.last() == bs[0]);
        assert(buckets_ms(bs) =~= bs[0]@.to_multiset().add(buckets_ms(rest))) by {
            assert forall|w: u32|
                buckets_ms(bs).count(w) == bs[0]@.to_multiset().add(buckets_ms(rest)).count(w) by {}
        }
    } else {
        lemma_buckets_ms_front(bs.drop_last());
        assert(bs.drop_last()[0] == bs[0]);
        assert(bs.drop_last().subrange(1, bs.len() - 1) =~= rest.drop_last());
        lemma_buckets_ms_congruence(
            bs.drop_last().subrange(1, bs.len() - 1),
            rest.drop_last(),
        );
        assert(rest.last() == bs.last());
        assert(buckets_ms(bs) =~= bs[0]@.to_multiset().add(buckets_ms(rest))) by {
            assert forall|w: u32|
                buckets_ms(bs).count(w) == bs[0]@.to_multiset().add(buckets_ms(rest)).count(w) by {}
        }
    }
}

/// Ten to the power `p`, computed by repeated doubling of the exponent's
/// base — the passes hand this to the digit extraction.
fn pow10_exec(p: u32) -> (r: u32)
    requires
        p <= 9,
    ensures
        r as nat == pow10(p as nat),
{
    let mut r: u32 = 1;
    let mut k: u32 = 0;
    while k < p
        invariant
            k <= p <= 9,
            r as nat == pow10(k as nat),
        decreases p - k,
    {
        proof {
            lemma_pow10_mono(k as nat, 8);
            lemma_pow10_ten();
            assert(pow10(8) == 100000000);
            assert(pow10((k + 1) as nat) == 10 * pow10(k as nat));
        }
        r = r * 10;
        k = k + 1;
    }
    r
}

/// One digit pass: distribute by the digit at position `p`, then drain the
/// buckets in digit order.  Returns the redistributed sequence and the
/// movements of this pass.
fn radix_pass(v: &Vec<u32>, div: u32, Ghost(p): Ghost<nat>) -> (res: (Vec<u32>, u64))
    requires
        p <= 9,
        div as nat == pow10(p),
        sorted_low(v@, p),
        v@.len() <= 1_000_000,
    ensures
        res.0@.len() == v@.len(),
        res.0@.to_multiset() == v@.to_multiset(),
        sorted_low(res.0@, p + 1),
        res.1 as int == 4 * v@.len() + 10,
{
    let n = v.len();
    let mut buckets: Vec<Vec<u32>> = Vec::new();
    let mut setup: usize = 0;
    while setup < 10
        invariant
            setup <= 10,
            buckets@.len() == setup,
            forall|j: int| 0 <= j < setup ==> buckets@[j]@.len() == 0,
            buckets_ms(buckets@) == Multiset::<u32>::empty(),
        decreases 10 - setup,
    {
        let ghost b0 = buckets@;
        buckets.push(Vec::new());
        proof {
            broadcast use vstd::multiset::group_multiset_axioms;

            assert(buckets@.drop_last() =~= b0);
            lemma_buckets_ms_congruence(buckets@.drop_last(), b0);
            assert(buckets@.last()@.len() == 0);
            assert(buckets@.last()@ =~= Seq::<u32>::empty());
            assert(buckets@.last()@.to_multiset().len() == 0) by {
                broadcast use vstd::seq_lib::group_to_multiset_ensures;

            }
            vstd::multiset::lemma_multiset_empty_len(buckets@.last()@.to_multiset());
            assert(buckets_ms(buckets@) =~= Multiset::<u32>::empty()) by {
                assert forall|w: u32| buckets_ms(buckets@).count(w) == 0 by {}
            }
        }
        setup = setup + 1;
    }
    let mut moves: u64 = 0;
    let mut i: usize = 0;
    proof {
        assert(v@.subrange(0, 0).to_multiset() =~= Multiset::<u32>::empty()) by {
            broadcast use vstd::seq_lib::group_to_multiset_ensures;

            vstd::multiset::lemma_multiset_empty_len(v@.subrange(0, 0).to_multiset());
        }
    }
    while i < n
        invariant
            buckets@.len() == 10,
            i <= n,
            n == v@.len() <= 1_000_000,
            p <= 9,
            div as nat == pow10(p),
            sorted_low(v@, p),
            forall|k: int, t: int|
                0 <= k < 10 && 0 <= t < buckets@[k]@.len() ==> digit_at(
                    #[trigger] buckets@[k]@[t],
                    p,
                ) == k,
            forall|k: int| 0 <= k < 10 ==> sorted_low(#[trigger] buckets@[k]@, p),
            forall|k: int, t: int, m: int|
                0 <= k < 10 && 0 <= t < buckets@[k]@.len() && i <= m < n ==> low(
                    #[trigger] buckets@[k]@[t],
                    p,
                ) <= low(#[trigger] v@[m], p),
            buckets_ms(buckets@) == v@.subrange(0, i as int).to_multiset(),
            moves as int == 4 * i,
        decreases n - i,
    {
        proof {
            lemma_pow10_pos(p);
        }
        let x = v[i];
        let key = ((x / div) % 10) as usize;
        proof {
            assert(key as nat == digit_at(x, p));
        }
        let ghost gb0 = buckets@;
        let mut bk = buckets.remove(key);
        let ghost gbr = buckets@;
        bk.push(x);
        buckets.insert(key, bk);
        proof {
            broadcast use vstd::seq_lib::group_to_multiset_ensures;

            let ki = key as int;
            gb0.remove_ensures(ki);
            gbr.insert_ensures(ki, bk);
            assert(buckets@.len() == 10);
            assert forall|j: int| 0 <= j < 10 && j != ki implies buckets@[j]@ == gb0[j]@ by {
                if j < ki {
                    assert(buckets@[j] == gbr[j]);
                    assert(gbr[j] == gb0[j]);
                } else {
                    assert(buckets@[j] == gbr[j - 1]);
                    assert(gbr[j - 1] == gb0[j]);
                }
            }
            assert(buckets@[ki] == bk);
            assert(buckets@[ki]@ == gb0[ki]@.push(x));
            lemma_buckets_ms_update(gb0, buckets@, ki, x);
            assert(v@.subrange(0, i + 1) =~= v@.subrange(0, i as int).push(v@[i as int]));
            assert(v@.subrange(0, i + 1).to_multiset() == v@.subrange(
                0,
                i as int,
            ).to_multiset().insert(x));
        }
        moves = moves + 4;
        i = i + 1;
    }
    let mut out: Vec<u32> = Vec::new();
    let mut k: usize = 0;
    proof {
        broadcast use vstd::multiset::group_multiset_axioms;
        broadcast use vstd::seq_lib::group_to_multiset_ensures;

        assert(v@.subrange(0, n as int) =~= v@);
        assert(out@.to_multiset().len() == 0);
        vstd::multiset::lemma_multiset_empty_len(out@.to_multiset());
        assert(out@.to_multiset().add(buckets_ms(buckets@)) =~= v@.to_multiset()) by {
            assert forall|w: u32|
                out@.to_multiset().add(buckets_ms(buckets@)).count(w) == v@.to_multiset().count(
                    w,
                ) by {}
        }
    }
    while k < 10
        invariant
            k <= 10,
            buckets@.len() == 10 - k,
            n == v@.len() <= 1_000_000,
            p <= 9,
            forall|j: int, t: int|
                0 <= j < 10 - k && 0 <= t < buckets@[j]@.len() ==> digit_at(
                    #[trigger] buckets@[j]@[t],
                    p,
                ) == j + k,
            forall|j: int| 0 <= j < 10 - k ==> sorted_low(#[trigger] buckets@[j]@, p),
            sorted_low(out@, p + 1),
            forall|t: int| 0 <= t < out@.len() ==> digit_at(#[trigger] out@[t], p) < k,
            out@.to_multiset().add(buckets_ms(buckets@)) == v@.to_multiset(),
            moves as int == 4 * n + k,
        decreases 10 - k,
    {
        let ghost gb0 = buckets@;
        let ghost out0 = out@;
        let mut bk = buckets.remove(0);
        let ghost bk0 = bk@;
        out.append(&mut bk);
        proof {
            broadcast use vstd::multiset::group_multiset_axioms;

            lemma_buckets_ms_front(gb0);
            assert(buckets@ =~= gb0.subrange(1, gb0.len() as int));
            lemma_buckets_ms_congruence(buckets@, gb0.subrange(1, gb0.len() as int));
            lemma_multiset_commutative(out0, bk0);
            assert(out@ == out0 + bk0);
            assert(out@.to_multiset().add(buckets_ms(buckets@)) =~= v@.to_multiset()) by {
                assert forall|w: u32|
                    out@.to_multiset().add(buckets_ms(buckets@)).count(w) == v@.to_multiset().count(
                        w,
                    ) by {}
            }
            let kk = k as int;
            assert forall|x1: int, y1: int|
                0 <= x1 <= y1 < out@.len() implies low(out@[x1], p + 1) <= low(
                out@[y1],
                p + 1,
            ) by {
                let m0 = out0.len() as int;
                if y1 < m0 {
                } else if x1 >= m0 {
                    assert(digit_at(bk0[x1 - m0], p) == kk);
                    assert(digit_at(bk0[y1 - m0], p) == kk);
                    assert(low(bk0[x1 - m0], p) <= low(bk0[y1 - m0], p));
                    lemma_digit_le_low(bk0[x1 - m0], bk0[y1 - m0], p);
                } else {
                    assert(digit_at(out0[x1], p) < kk);
                    assert(digit_at(bk0[y1 - m0], p) == kk);
                    lemma_digit_lt_low(out0[x1], bk0[y1 - m0], p);
                }
            }
            assert forall|t: int| 0 <= t < out@.len() implies digit_at(
                #[trigger] out@[t],
                p,
            ) < kk + 1 by {
                if t >= out0.len() {
                    assert(digit_at(bk0[t - out0.len()], p) == kk);
                }
            }
        }
        moves = moves + 1;
        k = k + 1;
    }
    proof {
        broadcast use vstd::multiset::group_multiset_axioms;
        broadcast use vstd::seq_lib::group_to_multiset_ensures;

        assert(buckets@.len() == 0);
        assert(out@.to_multiset() =~= v@.to_multiset()) by {
            assert forall|w: u32| out@.to_multiset().count(w) == v@.to_multiset().count(w) by {}
        }
        assert(out@.to_multiset().len() == v@.to_multiset().len());
        assert(out@.len() == v@.len());
    }
    (out, moves)
}

/// Sorts `v` ascending by least-significant-digit radix sort over all ten
/// decimal digit positions of `u32`.
///
/// No comparison is ever made on an input holding at least a pair, and the
/// movement count is fixed by the length alone: ten passes of four
/// movements per element plus ten bucket drains each.
pub fn radix_sort(v: Vec<u32>) -> (r: Stats)
    requires
        v@.len() <= 1_000_000,
    ensures
        r.sorts(v@),
        v@.len() < 2 ==> r.cmp_counter == 1 && r.swap_counter == 0 && r.ordered@ == v@,
        v@.len() >= 2 ==> r.cmp_counter == 0 && r.swap_counter as int == 40 * v@.len() + 100,
        is_sorted(v@) ==> r.ordered@ == v@,
{
    let ghost input = v@;
    if v.len() < 2 {
        return Stats { cmp_counter: 1, swap_counter: 0, ordered: v };
    }
    let n = v.len();
    let mut cur = v;
    let mut swap_counter: u64 = 0;
    let mut dp: u32 = 0;
    proof {
        lemma_sorted_low_zero(cur@);
    }
    while dp < 10
        invariant
            dp <= 10,
            cur@.len() == n,
            n == input.len() <= 1_000_000,
            2 <= n,
            cur@.to_multiset() == input.to_multiset(),
            sorted_low(cur@, dp as nat),
            swap_counter as int == (dp as int) * (4 * n + 10),
        decreases 10 - dp,
    {
        let div = pow10_exec(dp);
        let (next, pass_moves) = radix_pass(&cur, div, Ghost(dp as nat));
        cur = next;
        proof {
            assert(((dp + 1) as int) * (4 * n + 10) == (dp as int) * (4 * n + 10) + (4 * n + 10))
                by (nonlinear_arith);
            assert((dp as int) * (4 * n + 10) <= 10 * (4 * n + 10)) by (nonlinear_arith)
                requires
                    0 <= dp as int <= 10,
                    n as int >= 0,
            {}
        }
        swap_counter = swap_counter + pass_moves;
        dp = dp + 1;
    }
    proof {
        lemma_sorted_low_full(cur@);
        if is_sorted(input) {
            lemma_sorted_permutation_unique(cur@, input);
        }
        assert((10 as int) * (4 * n + 10) == 40 * n + 100) by (nonlinear_arith);
    }
    Stats { cmp_counter: 0, swap_counter, ordered: cur }
}

} // verus!
