use matchlab::hub::{fits_spoke, overflow_matches, region_positions};
use matchlab::ids::{PlayerId, Region, SimTime};
use matchlab::queue::QueueEntry;
use matchlab::window::match_compatible;

fn entry(id: u64, joined_secs: u64, region: Region) -> QueueEntry {
    QueueEntry {
        player_id: PlayerId(id),
        joined_at: SimTime::from_secs(joined_secs),
        region,
        party_id: None,
        game_mode: "ranked".to_string(),
        role: None,
    }
}

fn ids(v: &[PlayerId]) -> Vec<u64> {
    v.iter().map(|p| p.0).collect()
}

/// Compatible when the two ratings differ by at most `max_diff`.
fn within(ratings: &[i64], max_diff: i64) -> Vec<Vec<bool>> {
    ratings
        .iter()
        .map(|a| ratings.iter().map(|b| (a - b).abs() <= max_diff).collect())
        .collect()
}

#[test]
fn compatible_players_form_matches() {
    let queue: Vec<QueueEntry> = (1..=4).map(|i| entry(i, i, Region::NA)).collect();
    let compat = within(&[1000, 1010, 1020, 1030], 50);
    let matches = match_compatible(&queue, 2, &compat);
    assert_eq!(matches.len(), 1);
    assert_eq!(ids(&matches[0].team_a), vec![1, 3]);
    assert_eq!(ids(&matches[0].team_b), vec![2, 4]);
}

#[test]
fn incompatible_outlier_waits() {
    let queue: Vec<QueueEntry> = (1..=5).map(|i| entry(i, i, Region::NA)).collect();
    // player 1 is far from everyone else
    let compat = within(&[2000, 1000, 1010, 1020, 1030], 50);
    let matches = match_compatible(&queue, 2, &compat);
    assert_eq!(matches.len(), 1);
    assert_eq!(ids(&matches[0].team_a), vec![2, 4]);
    assert_eq!(ids(&matches[0].team_b), vec![3, 5]);
}

#[test]
fn wider_window_allows_more_players() {
    let queue: Vec<QueueEntry> = (1..=4).map(|i| entry(i, i, Region::NA)).collect();
    let ratings = [1000, 1100, 1200, 1300];
    assert!(match_compatible(&queue, 2, &within(&ratings, 50)).is_empty());
    assert_eq!(match_compatible(&queue, 2, &within(&ratings, 300)).len(), 1);
}

#[test]
fn zero_team_size_forms_nothing() {
    let queue: Vec<QueueEntry> = (1..=4).map(|i| entry(i, i, Region::NA)).collect();
    assert!(match_compatible(&queue, 0, &within(&[1, 1, 1, 1], 0)).is_empty());
}

#[test]
fn region_positions_keep_queue_order() {
    let queue = vec![
        entry(1, 1, Region::NA),
        entry(2, 2, Region::EU),
        entry(3, 3, Region::NA),
        entry(4, 4, Region::Asia),
    ];
    assert_eq!(region_positions(&queue, Region::NA), vec![0, 2]);
    assert_eq!(region_positions(&queue, Region::EU), vec![1]);
    assert!(region_positions(&[], Region::NA).is_empty());
}

#[test]
fn spoke_takes_regions_within_capacity() {
    assert!(fits_spoke(2, 2));
    assert!(!fits_spoke(10, 2));
}

#[test]
fn overflow_forms_blocks_in_join_order() {
    // ten players of one region, joined in reverse order of their ids
    let queue: Vec<QueueEntry> = (1..=10).map(|i| entry(i, 100 - i, Region::NA)).collect();
    let positions = region_positions(&queue, Region::NA);
    let matches = overflow_matches(&queue, &positions, 5);
    assert_eq!(matches.len(), 1);
    assert_eq!(ids(&matches[0].team_a), vec![10, 9, 8, 7, 6]);
    assert_eq!(ids(&matches[0].team_b), vec![5, 4, 3, 2, 1]);
}

#[test]
fn overflow_drops_partial_block() {
    let queue: Vec<QueueEntry> = (1..=7).map(|i| entry(i, i, Region::EU)).collect();
    let positions = region_positions(&queue, Region::EU);
    let matches = overflow_matches(&queue, &positions, 1);
    assert_eq!(matches.len(), 3);
    assert_eq!(ids(&matches[2].team_a), vec![5]);
    assert_eq!(ids(&matches[2].team_b), vec![6]);
}

#[test]
fn overflow_with_empty_teams() {
    let queue: Vec<QueueEntry> = (1..=2).map(|i| entry(i, i, Region::EU)).collect();
    let positions = region_positions(&queue, Region::EU);
    let matches = overflow_matches(&queue, &positions, 0);
    assert_eq!(matches.len(), 3);
    assert!(matches[0].team_a.is_empty() && matches[0].team_b.is_empty());
    assert_eq!(ids(&matches[1].team_a), vec![1]);
    assert_eq!(ids(&matches[2].team_a), vec![2]);
}

/// Compatible when two floating-point ratings differ by at most `window`.
fn within_f64(ratings: &[f64], window: f64) -> Vec<Vec<bool>> {
    ratings
        .iter()
        .map(|a| ratings.iter().map(|b| (a - b).abs() <= window).collect())
        .collect()
}

/// The default stepped tiers: the first tier whose bound is not exceeded
/// gives the window, otherwise 400.
fn default_tier_window(waiting_secs: f64) -> f64 {
    for (max_secs, diff) in [(5.0, 25.0), (10.0, 50.0), (20.0, 100.0), (30.0, 200.0)] {
        if waiting_secs <= max_secs {
            return diff;
        }
    }
    400.0
}

#[test]
fn matches_within_window_only() {
    let queue: Vec<QueueEntry> = (1..=20).map(|i| entry(i, 1, Region::NA)).collect();
    let ratings: Vec<f64> = (1..=20u64).map(|id| if id <= 10 { 1000.0 } else { 1700.0 }).collect();
    // every player has waited one second at time 2
    let window = default_tier_window(1.0);
    assert_eq!(window, 25.0);
    let matches = match_compatible(&queue, 5, &within_f64(&ratings, window));
    assert_eq!(matches.len(), 2);
    for m in &matches {
        let all_a_1000 = m.team_a.iter().all(|p| p.0 <= 10);
        let all_a_1700 = m.team_a.iter().all(|p| p.0 > 10);
        let all_b_1000 = m.team_b.iter().all(|p| p.0 <= 10);
        let all_b_1700 = m.team_b.iter().all(|p| p.0 > 10);
        assert!((all_a_1000 && all_b_1000) || (all_a_1700 && all_b_1700));
    }
}

#[test]
fn wider_window_allows_more_matches() {
    let queue: Vec<QueueEntry> = (1..=10).map(|i| entry(i, 1, Region::NA)).collect();
    let ratings = vec![1000.0; 10];
    // no tiers: the maximum window of 400 applies
    let matches = match_compatible(&queue, 5, &within_f64(&ratings, 400.0));
    assert_eq!(matches.len(), 1);
}

#[test]
fn matches_within_max_skill_diff() {
    let queue: Vec<QueueEntry> = (1..=10).map(|i| entry(i, i, Region::NA)).collect();
    let ratings = vec![1000.0; 10];
    let matches = match_compatible(&queue, 5, &within_f64(&ratings, 50.0));
    assert_eq!(matches.len(), 1);
}

#[test]
fn rejects_matches_exceeding_max_skill_diff() {
    let queue: Vec<QueueEntry> = (1..=10).map(|i| entry(i, i, Region::NA)).collect();
    let ratings = [1000.0, 1100.0, 1200.0, 1300.0, 1400.0, 1500.0, 1600.0, 1700.0, 1800.0, 1900.0];
    let matches = match_compatible(&queue, 5, &within_f64(&ratings, 50.0));
    assert!(matches.is_empty());
}

#[test]
fn wide_diff_forms_matches() {
    let queue: Vec<QueueEntry> = (1..=10).map(|i| entry(i, i, Region::NA)).collect();
    let ratings = vec![1000.0; 10];
    let matches = match_compatible(&queue, 5, &within_f64(&ratings, 1000.0));
    assert_eq!(matches.len(), 1);
}

#[test]
fn overflow_handled_by_hub_when_spoke_exceeds_capacity() {
    let queue: Vec<QueueEntry> = (1..=10).map(|i| entry(i, i, Region::NA)).collect();
    let positions = region_positions(&queue, Region::NA);
    // capacity 2: the ten players overflow to the hub
    assert!(!fits_spoke(positions.len(), 2));
    let matches = overflow_matches(&queue, &positions, 5);
    assert_eq!(matches.len(), 1);
}
