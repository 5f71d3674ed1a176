use sortbench::bubble::bubble_sort;
use sortbench::insertion::insertion_sort;
use sortbench::merge::merge_sort;
use sortbench::quick::quick_sort;
use sortbench::radix::radix_sort;
use sortbench::selection::selection_sort;

fn sorted_copy(v: &Vec<u32>) -> Vec<u32> {
    let mut s = v.clone();
    s.sort();
    s
}

#[test]
fn empty_input_all_algorithms() {
    let empty: Vec<u32> = vec![];

    let r = bubble_sort(empty.clone());
    assert_eq!(r.ordered, empty);
    assert_eq!(r.cmp_counter, 0);
    assert_eq!(r.swap_counter, 0);

    let r = selection_sort(empty.clone());
    assert_eq!(r.ordered, empty);
    assert_eq!(r.cmp_counter, 0);
    assert_eq!(r.swap_counter, 0);

    let r = insertion_sort(empty.clone());
    assert_eq!(r.ordered, empty);
    assert_eq!(r.cmp_counter, 0);
    assert_eq!(r.swap_counter, 0);

    let r = merge_sort(empty.clone());
    assert_eq!(r.ordered, empty);
    assert_eq!(r.cmp_counter, 0);
    assert_eq!(r.swap_counter, 0);

    // Quick sort and radix sort report one comparison on the short base case.
    let r = quick_sort(empty.clone());
    assert_eq!(r.ordered, empty);
    assert_eq!(r.cmp_counter, 1);
    assert_eq!(r.swap_counter, 0);

    let r = radix_sort(empty.clone());
    assert_eq!(r.ordered, empty);
    assert_eq!(r.cmp_counter, 1);
    assert_eq!(r.swap_counter, 0);
}

#[test]
fn singleton_input_all_algorithms() {
    let one: Vec<u32> = vec![7];

    let r = bubble_sort(one.clone());
    assert_eq!(r.ordered, one);
    assert_eq!((r.cmp_counter, r.swap_counter), (0, 0));

    let r = selection_sort(one.clone());
    assert_eq!(r.ordered, one);
    assert_eq!((r.cmp_counter, r.swap_counter), (0, 0));

    let r = insertion_sort(one.clone());
    assert_eq!(r.ordered, one);
    assert_eq!((r.cmp_counter, r.swap_counter), (0, 0));

    let r = merge_sort(one.clone());
    assert_eq!(r.ordered, one);
    assert_eq!((r.cmp_counter, r.swap_counter), (0, 0));

    let r = quick_sort(one.clone());
    assert_eq!(r.ordered, one);
    assert_eq!((r.cmp_counter, r.swap_counter), (1, 0));

    let r = radix_sort(one.clone());
    assert_eq!(r.ordered, one);
    assert_eq!((r.cmp_counter, r.swap_counter), (1, 0));
}

#[test]
fn concrete_scenario_all_algorithms_agree() {
    let v: Vec<u32> = vec![5, 3, 3, 1];
    let want: Vec<u32> = vec![1, 3, 3, 5];

    assert_eq!(bubble_sort(v.clone()).ordered, want);
    assert_eq!(selection_sort(v.clone()).ordered, want);
    assert_eq!(insertion_sort(v.clone()).ordered, want);
    assert_eq!(merge_sort(v.clone()).ordered, want);
    assert_eq!(quick_sort(v.clone()).ordered, want);
    assert_eq!(radix_sort(v.clone()).ordered, want);
}

#[test]
fn concrete_scenario_counters() {
    let v: Vec<u32> = vec![5, 3, 3, 1];

    // Hand trace of the bubble passes: [5,3,3,1] -> [3,3,1,5] (3 swaps)
    // -> [3,1,3,5] (1 swap) -> [1,3,3,5] (1 swap) -> swap-free pass.
    // Four passes of three comparisons each; one swap per inversion.
    let r = bubble_sort(v.clone());
    assert_eq!(r.swap_counter, 5);
    assert_eq!(r.cmp_counter, 12);

    // Selection: comparisons depend only on the length, one swap places 1.
    let r = selection_sort(v.clone());
    assert_eq!(r.cmp_counter, 9);
    assert_eq!(r.swap_counter, 1);

    // Insertion: one shift per inversion; scans cost 1, 2 and 3 comparisons.
    let r = insertion_sort(v.clone());
    assert_eq!(r.swap_counter, 5);
    assert_eq!(r.cmp_counter, 6);

    // Merge must count at least the initial split of all four elements.
    let r = merge_sort(v.clone());
    assert!(r.swap_counter >= 4);
    assert_eq!(r.swap_counter, 8);
    assert_eq!(r.cmp_counter, 0);

    // Radix never compares and moves a fixed amount per element.
    let r = radix_sort(v.clone());
    assert_eq!(r.cmp_counter, 0);
    assert_eq!(r.swap_counter, 40 * 4 + 100);
}

#[test]
fn sorted_input_minimal_counters() {
    let v: Vec<u32> = vec![1, 2, 3, 4];

    // Bubble: exactly one swap-free pass.
    let r = bubble_sort(v.clone());
    assert_eq!(r.ordered, v);
    assert_eq!((r.cmp_counter, r.swap_counter), (3, 0));

    // Selection: the scan count never changes, but no swap happens.
    let r = selection_sort(v.clone());
    assert_eq!(r.ordered, v);
    assert_eq!((r.cmp_counter, r.swap_counter), (9, 0));

    // Insertion: every scan stops at its first comparison.
    let r = insertion_sort(v.clone());
    assert_eq!(r.ordered, v);
    assert_eq!((r.cmp_counter, r.swap_counter), (3, 0));

    // Merge: the concatenation fast path costs no comparison.
    let r = merge_sort(v.clone());
    assert_eq!(r.ordered, v);
    assert_eq!(r.cmp_counter, 0);

    // Quick: nothing is relocated; comparisons collapse to n*(n-1)+1.
    let r = quick_sort(v.clone());
    assert_eq!(r.ordered, v);
    assert_eq!((r.cmp_counter, r.swap_counter), (13, 0));

    // Radix: counters are fixed by the length alone.
    let r = radix_sort(v.clone());
    assert_eq!(r.ordered, v);
    assert_eq!((r.cmp_counter, r.swap_counter), (0, 40 * 4 + 100));
}

#[test]
fn sorting_twice_is_idempotent() {
    let v: Vec<u32> = vec![9, 4, 4, 0, 77, 13, 1023, 512, 4];
    let once = bubble_sort(v.clone()).ordered;

    assert_eq!(bubble_sort(once.clone()).ordered, once);
    assert_eq!(selection_sort(once.clone()).ordered, once);
    assert_eq!(insertion_sort(once.clone()).ordered, once);
    assert_eq!(merge_sort(once.clone()).ordered, once);
    assert_eq!(quick_sort(once.clone()).ordered, once);
    assert_eq!(radix_sort(once.clone()).ordered, once);
}

#[test]
fn radix_multi_digit_values() {
    let v: Vec<u32> = vec![9, 88, 700, 5, 0];
    let r = radix_sort(v.clone());
    assert_eq!(r.ordered, vec![0, 5, 9, 88, 700]);
    assert_eq!(r.cmp_counter, 0);
    assert_eq!(r.swap_counter, 40 * 5 + 100);
}

#[test]
fn radix_full_width_values() {
    let v: Vec<u32> = vec![u32::MAX, 0, 1_000_000_000, 999_999_999, 42];
    let r = radix_sort(v.clone());
    assert_eq!(r.ordered, vec![0, 42, 999_999_999, 1_000_000_000, u32::MAX]);
}

#[test]
fn merge_counter_aggregation_hand_traced() {
    // [2,1]: the split moves both elements, the halves are single elements
    // costing nothing, and the reversed fast path concatenates without a
    // comparison: 0 comparisons, 2 movements in total.
    let r = merge_sort(vec![2, 1]);
    assert_eq!(r.ordered, vec![1, 2]);
    assert_eq!((r.cmp_counter, r.swap_counter), (0, 2));

    // [5,3,3,1]: each half costs (0 cmp, 2 moves) plus its own split of 2,
    // the top level adds its split of 4 and a comparison-free fast path:
    // totals 0 and 4 + (2+2) = 8 across the whole call tree.
    let r = merge_sort(vec![5, 3, 3, 1]);
    assert_eq!((r.cmp_counter, r.swap_counter), (0, 8));

    // [2,1,3]: left [2] costs nothing, right [1,3] is already ordered
    // (split 2, fast path), top level splits 3 and interleaves 2 steps and
    // appends a remainder of 1: cmp 2, moves 3 + 2 + 2 + 1 = 8.
    let r = merge_sort(vec![2, 1, 3]);
    assert_eq!(r.ordered, vec![1, 2, 3]);
    assert_eq!((r.cmp_counter, r.swap_counter), (2, 8));
}

#[test]
fn quick_counter_aggregation_hand_traced() {
    // [3,1,2]: partitioning around 2 relocates 3 (2 cmp, 2 moves), then
    // advances past 1 (2 cmp).  The left part [1] costs its base-case
    // comparison; the right part's counters are dropped by the documented
    // asymmetry.  Totals: 4 + 1 comparisons, 2 movements.
    let r = quick_sort(vec![3, 1, 2]);
    assert_eq!(r.ordered, vec![1, 2, 3]);
    assert_eq!((r.cmp_counter, r.swap_counter), (5, 2));

    // [5,3,3,1]: partitioning around 1 relocates 5, 3 and 3 (6 cmp,
    // 6 moves), leaves an empty left part (1 cmp), and drops the right
    // part's counters.
    let r = quick_sort(vec![5, 3, 3, 1]);
    assert_eq!(r.ordered, vec![1, 3, 3, 5]);
    assert_eq!((r.cmp_counter, r.swap_counter), (7, 6));
}

#[test]
fn all_algorithms_match_baseline_on_mixed_input() {
    let v: Vec<u32> = vec![
        1023, 0, 512, 77, 77, 13, 999, 1, 2, 3, 1000, 4, 900, 88, 700, 5, 42, 42,
    ];
    let want = sorted_copy(&v);

    assert_eq!(bubble_sort(v.clone()).ordered, want);
    assert_eq!(selection_sort(v.clone()).ordered, want);
    assert_eq!(insertion_sort(v.clone()).ordered, want);
    assert_eq!(merge_sort(v.clone()).ordered, want);
    assert_eq!(quick_sort(v.clone()).ordered, want);
    assert_eq!(radix_sort(v.clone()).ordered, want);
}

#[test]
fn bubble_swaps_equal_inversions_insertion_agrees() {
    // Both algorithms move elements once per inversion of the input, so
    // their movement counters must agree on every input.
    let inputs: Vec<Vec<u32>> = vec![
        vec![5, 3, 3, 1],
        vec![1, 2, 3, 4, 5],
        vec![5, 4, 3, 2, 1],
        vec![2, 2, 2],
        vec![10, 1, 9, 2, 8, 3, 7, 4, 6, 5],
    ];
    for v in inputs {
        let b = bubble_sort(v.clone());
        let i = insertion_sort(v.clone());
        assert_eq!(b.swap_counter, i.swap_counter);
        assert_eq!(b.ordered, i.ordered);
    }
}

#[test]
fn reverse_sorted_input() {
    let v: Vec<u32> = vec![9, 8, 7, 6, 5, 4, 3, 2, 1, 0];
    let want = sorted_copy(&v);

    // Ten reversed elements hold 45 inversions.
    let b = bubble_sort(v.clone());
    assert_eq!(b.ordered, want);
    assert_eq!(b.swap_counter, 45);

    let i = insertion_sort(v.clone());
    assert_eq!(i.ordered, want);
    assert_eq!(i.swap_counter, 45);
    // Every element is a strict new minimum, so every scan runs off the
    // left end and no stopping comparison is ever paid on top of the shifts.
    assert_eq!(i.cmp_counter, 45);

    assert_eq!(selection_sort(v.clone()).ordered, want);
    assert_eq!(merge_sort(v.clone()).ordered, want);
    assert_eq!(quick_sort(v.clone()).ordered, want);
    assert_eq!(radix_sort(v.clone()).ordered, want);
}
