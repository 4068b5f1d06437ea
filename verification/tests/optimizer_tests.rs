use matchlab::config::OptOutputSpec;
use matchlab::optimizer::{
    default_early_warning_failures, default_k_dpp_candidates, default_max_consecutive_failures,
    default_min_gp_training_points, initial_design_size, initial_evaluations, AsyncRun, Evaluation, PointSource,
    RunPhase, RunSettings, SequentialRun,
};

fn settings(budget: u64, initial_points: u64) -> RunSettings {
    RunSettings::new(budget, initial_points, 42, None, None)
}

fn no_checkpoints() -> OptOutputSpec {
    OptOutputSpec::default()
}

fn every_other_trial() -> OptOutputSpec {
    OptOutputSpec {
        directory: "out".to_string(),
        report: false,
        checkpoint: true,
        checkpoint_interval: Some(2),
    }
}

#[test]
fn settings_take_their_defaults() {
    let s = settings(10, 3);
    assert_eq!(s.min_gp_training_points, 2);
    assert_eq!(s.max_consecutive_failures, 10);
    let custom = RunSettings::new(10, 3, 1, Some(3), Some(5));
    assert_eq!(custom.min_gp_training_points, 3);
    assert_eq!(custom.max_consecutive_failures, 5);
    assert_eq!(default_max_consecutive_failures(), 10);
    assert_eq!(default_min_gp_training_points(), 2);
    assert_eq!(default_early_warning_failures(), 5);
    assert_eq!(default_k_dpp_candidates(), 1000);
}

#[test]
fn initial_design_is_capped_by_the_budget() {
    assert_eq!(initial_design_size(&settings(3, 10)), 3);
    assert_eq!(initial_design_size(&settings(10, 2)), 2);
    let evals = initial_evaluations(&settings(3, 2));
    assert_eq!(
        evals,
        vec![
            Evaluation { trial_index: 0, source: PointSource::Initial(0), seed: 42 },
            Evaluation { trial_index: 1, source: PointSource::Initial(1), seed: 43 },
        ]
    );
}

#[test]
fn sequential_run_stays_within_its_budget() {
    let s = settings(3, 2);
    let mut run = SequentialRun::new(s, no_checkpoints());
    assert_eq!(run.record_initial(&[true, true]), None);
    let mut trials = Vec::new();
    while let Some(e) = run.next_evaluation() {
        trials.push(e.trial_index);
        run.record(true);
    }
    assert!(run.is_done());
    assert_eq!(trials, vec![2]);
    assert_eq!(run.state.evaluated, 3);
}

#[test]
fn sequential_run_suggests_once_enough_trials_succeeded() {
    let mut run = SequentialRun::new(settings(5, 2), no_checkpoints());
    run.record_initial(&[true, false]);
    assert_eq!(run.state.consecutive_failures, 1);
    // one success so far: a random point, drawn with the seed plus 1000 * 2
    assert_eq!(
        run.next_evaluation(),
        Some(Evaluation { trial_index: 2, source: PointSource::Random(2042), seed: 44 })
    );
    run.record(true);
    assert_eq!(run.state.consecutive_failures, 0);
    assert_eq!(
        run.next_evaluation(),
        Some(Evaluation { trial_index: 3, source: PointSource::Suggest(3042), seed: 45 })
    );
}

#[test]
fn sequential_failure_retries_with_a_random_point() {
    let mut run = SequentialRun::new(settings(5, 2), no_checkpoints());
    run.record_initial(&[true, true]);
    run.record(false);
    assert_eq!(run.state.phase, RunPhase::Trial { trial: 2, retry: true });
    assert_eq!(
        run.next_evaluation(),
        Some(Evaluation { trial_index: 2, source: PointSource::Random(42 + 2 * 777), seed: 42 + 2 + 50000 })
    );
    run.record(false);
    assert_eq!(run.state.phase, RunPhase::Trial { trial: 3, retry: false });
    assert_eq!(run.state.consecutive_failures, 2);
}

#[test]
fn sequential_run_stops_after_too_many_failures() {
    let s = RunSettings::new(100, 1, 7, None, Some(3));
    let mut run = SequentialRun::new(s, no_checkpoints());
    run.record_initial(&[false]);
    run.record(false); // two in a row: retry
    assert!(!run.is_done());
    run.record(false); // the retry fails too: three, next trial
    assert_eq!(run.state.phase, RunPhase::Trial { trial: 2, retry: false });
    run.record(false); // four on a first attempt: stop
    assert!(run.is_done());
    assert_eq!(run.next_evaluation(), None);
}

#[test]
fn sequential_checkpoints_follow_the_interval() {
    let mut run = SequentialRun::new(settings(6, 2), every_other_trial());
    // after the design: its last trial, 1, is not a multiple of 2
    assert_eq!(run.record_initial(&[true, true]), None);
    assert_eq!(run.record(true), Some(2));
    assert_eq!(run.record(true), None);
    assert_eq!(run.record(false), None);
    assert_eq!(run.record(true), Some(4));
}

#[test]
fn empty_initial_design_checkpoints_at_the_first_trial() {
    let mut run = SequentialRun::new(settings(2, 0), every_other_trial());
    assert_eq!(run.record_initial(&[]), Some(0));
    assert_eq!(run.next_evaluation().map(|e| e.trial_index), Some(0));
}

#[test]
fn async_run_dispatches_the_batch_and_finishes() {
    let mut run = AsyncRun::new(settings(4, 2), no_checkpoints(), 2);
    let (cp, wave) = run.start(&[true, true]);
    assert_eq!(cp, None);
    assert_eq!(
        wave,
        vec![
            Evaluation { trial_index: 2, source: PointSource::Suggest(2042), seed: 44 },
            Evaluation { trial_index: 3, source: PointSource::Suggest(3042), seed: 45 },
        ]
    );
    assert!(!run.is_finished());
    let (_, more) = run.on_result(2, true);
    assert!(more.is_empty());
    let (_, more) = run.on_result(3, true);
    assert!(more.is_empty());
    assert!(run.is_finished());
    assert_eq!(run.state.evaluated, 4);
}

#[test]
fn async_failure_dispatches_a_fallback_and_a_fresh_point() {
    let mut run = AsyncRun::new(settings(10, 1), no_checkpoints(), 1);
    let (_, wave) = run.start(&[true]);
    // fewer than two successes: the first wave is random
    assert_eq!(wave, vec![Evaluation { trial_index: 1, source: PointSource::Random(1042), seed: 43 }]);
    let (cp, more) = run.on_result(1, false);
    assert_eq!(cp, None);
    assert_eq!(
        more,
        vec![
            Evaluation { trial_index: 2, source: PointSource::Random(42 + 777), seed: 42 + 2 + 50000 },
            Evaluation { trial_index: 3, source: PointSource::Random(3042), seed: 45 },
        ]
    );
    assert_eq!(run.state.in_flight, 2);
    run.on_result(2, true);
    let (_, more) = run.on_result(3, true);
    // three successes now: the suggestion accounts for the pending points
    assert_eq!(more[0].source, PointSource::SuggestWithPending(5042));
}

#[test]
fn async_run_stops_after_too_many_failures() {
    let s = RunSettings::new(10, 0, 1, None, Some(2));
    let mut run = AsyncRun::new(s, no_checkpoints(), 2);
    let (_, wave) = run.start(&[]);
    assert_eq!(wave.len(), 2);
    run.on_result(0, false);
    let (_, more) = run.on_result(1, false);
    assert!(more.is_empty());
    assert!(run.is_finished());
    assert!(run.state.stopped);
}
