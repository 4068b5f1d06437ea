use matchlab::config::{
    default_acquisition, default_initial_design, default_initial_points, default_kernel,
    default_opt_directory, directions_of, AggregationStrategy, CountAggregator, Direction,
    ObjectiveSpec, OptOutputSpec,
};
use matchlab::kinds::{AcquisitionKind, KernelKind};
use matchlab::pareto::{dominates, ParetoFront};

#[test]
fn acquisition_kind_parse() {
    assert_eq!(AcquisitionKind::parse("ei").unwrap(), AcquisitionKind::EI);
    assert_eq!(AcquisitionKind::parse("expected_improvement").unwrap(), AcquisitionKind::EI);
    assert_eq!(AcquisitionKind::parse("ucb").unwrap(), AcquisitionKind::UCB);
    assert_eq!(AcquisitionKind::parse("pi").unwrap(), AcquisitionKind::PI);
    assert_eq!(
        AcquisitionKind::parse("probability_of_improvement").unwrap(),
        AcquisitionKind::PI
    );
    assert!(AcquisitionKind::parse("unknown").is_err());
}

#[test]
fn kernel_kind_parse() {
    assert_eq!(KernelKind::parse("matern52").unwrap(), KernelKind::Matern52);
    assert_eq!(KernelKind::parse("MATERN_52").unwrap(), KernelKind::Matern52);
    assert_eq!(KernelKind::parse("matern32").unwrap(), KernelKind::Matern32);
    assert_eq!(KernelKind::parse("rbf").unwrap(), KernelKind::RBF);
    assert_eq!(KernelKind::parse("squared_exponential").unwrap(), KernelKind::RBF);
    assert_eq!(KernelKind::parse("rq").unwrap(), KernelKind::RationalQuadratic);
    assert_eq!(KernelKind::parse("rational_quadratic").unwrap(), KernelKind::RationalQuadratic);
    assert!(KernelKind::parse("unknown").is_err());
}

#[test]
fn parse_lowercases_and_reports_given_text() {
    assert_eq!(AcquisitionKind::parse("UCB").unwrap(), AcquisitionKind::UCB);
    assert_eq!(KernelKind::parse("SE").unwrap(), KernelKind::RBF);
    assert_eq!(
        AcquisitionKind::parse("Thompson").unwrap_err(),
        "unknown acquisition function: Thompson"
    );
    assert_eq!(KernelKind::parse("Linear").unwrap_err(), "unknown kernel: Linear");
    assert_eq!(AcquisitionKind::from_lowercase("pi", "PI").unwrap(), AcquisitionKind::PI);
}

#[test]
fn bo_config_defaults() {
    assert_eq!(default_initial_design(), "latin_hypercube");
    assert_eq!(default_initial_points(), 10);
    assert_eq!(default_kernel(), "matern52");
    assert_eq!(default_acquisition(), "ei");
    assert_eq!(default_opt_directory(), "results/optimization/");
    let out = OptOutputSpec::default();
    assert_eq!(out.directory, "");
    assert!(!out.report && !out.checkpoint);
    assert_eq!(out.checkpoint_interval, None);
}

#[test]
fn count_aggregator_counts() {
    let mut agg = CountAggregator::default();
    for _ in 0..42 {
        agg.update();
    }
    assert_eq!(agg.result(), 42);
    let mut other = CountAggregator::new();
    other.update();
    agg.merge(&other);
    assert_eq!(agg.result(), 43);
    assert_ne!(AggregationStrategy::Full, AggregationStrategy::Incremental);
}

#[test]
fn directions_follow_objectives() {
    let specs = vec![
        ObjectiveSpec { metric: "match_quality".to_string(), direction: Direction::Maximize },
        ObjectiveSpec { metric: "queue_time".to_string(), direction: Direction::Minimize },
    ];
    assert_eq!(directions_of(&specs), vec![true, false]);
}

#[test]
fn dominates_basic() {
    let a = [10u64, 20];
    let b = [5u64, 15];
    let dirs = [true, true];
    assert!(dominates(&a, &b, &dirs));
    assert!(!dominates(&b, &a, &dirs));
}

#[test]
fn dominates_incomparable() {
    let a = [10u64, 5];
    let b = [5u64, 10];
    let dirs = [true, true];
    assert!(!dominates(&a, &b, &dirs));
    assert!(!dominates(&b, &a, &dirs));
}

#[test]
fn dominates_with_minimize() {
    let a = [5u64, 20];
    let b = [10u64, 30];
    let dirs = [false, false];
    assert!(dominates(&a, &b, &dirs));
}

#[test]
fn dominates_needs_a_strict_improvement() {
    let a = [7u64, 7];
    assert!(!dominates(&a, &a, &[true, false]));
}

#[test]
fn pareto_front_update() {
    let mut pf = ParetoFront::new();
    let objectives = vec![vec![10u64, 30], vec![20, 20], vec![30, 10], vec![15, 25]];
    let dirs = vec![true, true];
    pf.update(&objectives, &dirs);
    assert_eq!(pf.indices.len(), 4);
}

#[test]
fn pareto_front_drops_dominated_points() {
    let mut pf = ParetoFront::new();
    let objectives = vec![vec![1u64, 1], vec![2, 2], vec![3, 0], vec![2, 2]];
    pf.update(&objectives, &[true, true]);
    assert_eq!(pf.indices, vec![1, 2, 3]);
    let front = pf.front_objectives(&objectives);
    assert_eq!(front, vec![&vec![2u64, 2], &vec![3u64, 0], &vec![2u64, 2]]);
}

#[test]
fn checkpoints_follow_the_interval() {
    let mut out = matchlab::config::OptOutputSpec::default();
    assert!(!out.should_checkpoint(0));
    out.checkpoint = true;
    assert!(out.should_checkpoint(3));
    out.checkpoint_interval = Some(5);
    assert!(out.should_checkpoint(0));
    assert!(!out.should_checkpoint(3));
    assert!(out.should_checkpoint(10));
}
