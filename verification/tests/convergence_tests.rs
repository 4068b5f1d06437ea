use matchlab::convergence::ConvergenceGames;
use matchlab::ids::PlayerId;

/// Records one player of a match: converged when the rating lies within
/// `threshold` of the true skill.
fn record(c: &mut ConvergenceGames, id: u64, rating: f64, skill: f64, games: u64, threshold: f64) {
    c.record(PlayerId(id), (rating - skill).abs() < threshold, games);
}

fn mean_games(c: &ConvergenceGames) -> f64 {
    let games: Vec<f64> = c.sorted_pairs().iter().map(|(g, _)| *g as f64).collect();
    if games.is_empty() {
        return f64::INFINITY;
    }
    games.iter().sum::<f64>() / games.len() as f64
}

#[test]
fn records_games_to_convergence() {
    let mut c = ConvergenceGames::new();
    record(&mut c, 1, 1000.0, 1020.0, 5, 50.0); // error 20 < 50: converged at 5
    record(&mut c, 2, 1000.0, 900.0, 30, 50.0); // error 100: never
    assert_eq!(c.sorted_pairs(), vec![(5, 1)]);
    assert!((mean_games(&c) - 5.0).abs() < 1e-9);
}

#[test]
fn none_converged_is_infinity() {
    let mut c = ConvergenceGames::new();
    record(&mut c, 1, 1000.0, 1200.0, 10, 50.0);
    assert!(c.sorted_pairs().is_empty());
    assert_eq!(mean_games(&c), f64::INFINITY);
}

#[test]
fn the_first_convergence_is_kept() {
    let mut c = ConvergenceGames::new();
    c.record(PlayerId(7), false, 3);
    c.record(PlayerId(7), true, 8);
    c.record(PlayerId(7), true, 12);
    c.record(PlayerId(7), false, 15);
    assert_eq!(c.sorted_pairs(), vec![(8, 7)]);
}

#[test]
fn converged_players_are_ordered_by_games_then_id() {
    let mut c = ConvergenceGames::new();
    for (id, games) in [(9, 4), (2, 6), (5, 4), (1, 10), (3, 6)] {
        c.record(PlayerId(id), true, games);
    }
    c.record(PlayerId(4), false, 1);
    assert_eq!(c.sorted_pairs(), vec![(4, 5), (4, 9), (6, 2), (6, 3), (10, 1)]);
}
