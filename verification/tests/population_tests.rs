use matchlab::objective::{LatencyObjective, SkillBalanceObjective, WaitTimeObjective};
use matchlab::order::stable_order;
use matchlab::population::allocate_counts;

#[test]
fn proportions_convert_to_integer_counts_that_sum_to_size() {
    // 0.33, 0.33, 0.34 of 100: floors 33, 33, 34, nothing left over
    let counts = allocate_counts(&[33, 33, 34], &[0, 0, 0], 100);
    assert_eq!(counts.iter().sum::<u64>(), 100);
    assert_eq!(counts, vec![33, 33, 34]);
}

#[test]
fn leftover_goes_to_largest_remainders() {
    // 1/3 each of 10: floors 3, 3, 3; one left over, to the first of the ties
    assert_eq!(allocate_counts(&[3, 3, 3], &[333, 333, 333], 10), vec![4, 3, 3]);
    // shares 0.25, 0.35, 0.40 of 7: 1.75, 2.45, 2.8 -> floors 1, 2, 2
    assert_eq!(allocate_counts(&[1, 2, 2], &[75, 45, 80], 7), vec![2, 2, 3]);
}

#[test]
fn floors_above_size_are_kept() {
    assert_eq!(allocate_counts(&[5, 6], &[0, 0], 10), vec![5, 6]);
}

#[test]
fn no_archetypes_no_counts() {
    assert!(allocate_counts(&[], &[], 100).is_empty());
}

#[test]
fn stable_order_descending_keeps_ties_in_place() {
    assert_eq!(stable_order(&[5, 9, 5, 1, 9], true), vec![1, 4, 0, 2, 3]);
    assert_eq!(stable_order(&[5, 9, 5, 1, 9], false), vec![3, 0, 2, 1, 4]);
}

#[test]
fn objective_descriptions() {
    assert_eq!(SkillBalanceObjective.description(), "skill balance");
    assert_eq!(LatencyObjective.description(), "latency");
    assert_eq!(WaitTimeObjective.description(), "wait time");
}
