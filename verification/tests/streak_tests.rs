use matchlab::ids::{PlayerId, Team};
use matchlab::streaks::StreakCollector;

#[test]
fn streak_lengths_accumulate() {
    let mut c = StreakCollector::new();
    c.record_match(&[PlayerId(1)], &[PlayerId(2)], Team::A);
    c.record_match(&[PlayerId(1)], &[PlayerId(2)], Team::A);
    c.record_match(&[PlayerId(1)], &[PlayerId(2)], Team::A);
    c.record_match(&[PlayerId(1)], &[PlayerId(2)], Team::B);
    // ended streaks: player 2's opening empty run (0), player 1's three wins,
    // player 2's three losses
    assert_eq!(c.ended_count(), 3);
    assert_eq!(c.count_at_least(3), 2);
    assert!(c.count_at_least(3) * 2 >= c.ended_count());
}

#[test]
fn no_streaks_is_zero() {
    let c = StreakCollector::new();
    assert_eq!(c.ended_count(), 0);
    assert_eq!(c.count_at_least(3), 0);
    assert_eq!(c.name(), "streaks");
}
