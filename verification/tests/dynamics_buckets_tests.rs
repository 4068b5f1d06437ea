use matchlab::buckets::{bucket_assignment, bucket_index, bucket_width, TIME_BUCKETS};
use matchlab::config::{classify_parameters, ParameterShape};
use matchlab::dynamics::{party_pair, remove_leaving};

#[test]
fn time_buckets_split_samples_by_duration_windows() {
    // 50 s span -> 2.5 s per bucket; 10 s / 30 s / 50 s -> buckets 4, 12, 19
    let ticks = [10_000_000u64, 30_000_000, 50_000_000];
    let b = bucket_assignment(&ticks).unwrap();
    assert_eq!(b, vec![4, 12, 19]);
}

#[test]
fn bucket_width_rounds_up() {
    assert_eq!(bucket_width(0), 1);
    assert_eq!(bucket_width(20), 1);
    assert_eq!(bucket_width(21), 2);
    assert_eq!(bucket_width(50_000_000), 2_500_000);
}

#[test]
fn bucket_index_caps_at_last_bucket() {
    assert_eq!(bucket_index(0, 1), 0);
    assert_eq!(bucket_index(19, 1), 19);
    assert_eq!(bucket_index(1000, 1), TIME_BUCKETS - 1);
}

#[test]
fn no_samples_no_buckets() {
    assert!(bucket_assignment(&[]).is_none());
}

#[test]
fn remove_leaving_keeps_order() {
    let mut pop = vec![10, 11, 12, 13, 14];
    let gone = remove_leaving(&mut pop, &[false, true, false, true, true]);
    assert_eq!(pop, vec![10, 12]);
    assert_eq!(gone, vec![1, 3, 4]);
}

#[test]
fn remove_leaving_nobody() {
    let mut pop = vec!["a", "b"];
    let gone = remove_leaving(&mut pop, &[false, false]);
    assert_eq!(pop, vec!["a", "b"]);
    assert!(gone.is_empty());
}

#[test]
fn party_pair_moves_second_off_first() {
    assert_eq!(party_pair(7, 2, 5), (2, 2 + 1));
    assert_eq!(party_pair(4, 9, 5), (4, 0));
    assert_eq!(party_pair(1, 3, 5), (1, 3));
}

#[test]
fn classify_parameters_splits_kinds() {
    let shapes = [
        ParameterShape::Float,
        ParameterShape::Categorical { levels: 3 },
        ParameterShape::Float,
        ParameterShape::Categorical { levels: 2 },
    ];
    let idx = classify_parameters(&shapes);
    assert_eq!(idx.cont, vec![0, 2]);
    assert_eq!(idx.cat, vec![1, 3]);
    assert_eq!(idx.cat_n_levels, vec![3, 2]);
    assert_eq!(shapes[1].n_categories(), 3);
    assert_eq!(shapes[0].n_categories(), 1);
    assert!(shapes[0].is_float() && !shapes[0].is_categorical());
}
