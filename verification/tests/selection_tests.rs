use matchlab::constraint::ProposedMatch;
use matchlab::ids::PlayerId;
use matchlab::selection::{select_best, select_first_meeting, select_weighted};

/// Ratings of players 0..4: 1000, 1100, 1200, 1300.
fn rating(p: PlayerId) -> f64 {
    1000.0 + p.0 as f64 * 100.0
}

fn avg(team: &[PlayerId]) -> f64 {
    team.iter().map(|p| rating(*p)).sum::<f64>() / team.len().max(1) as f64
}

/// The skill-balance score of a candidate.
fn skill_balance(m: &ProposedMatch) -> f64 {
    1.0 - ((avg(&m.team_a) - avg(&m.team_b)).abs() / 400.0).min(1.0)
}

/// An integer that orders as the (non-NaN) float does.
fn order_key(x: f64) -> u64 {
    let bits = x.to_bits();
    if bits >> 63 == 1 {
        !bits
    } else {
        bits | (1u64 << 63)
    }
}

fn pm(a: &[u64], b: &[u64]) -> ProposedMatch {
    ProposedMatch {
        team_a: a.iter().map(|&i| PlayerId(i)).collect(),
        team_b: b.iter().map(|&i| PlayerId(i)).collect(),
    }
}

fn keys(cs: &[ProposedMatch]) -> Vec<u64> {
    cs.iter().map(|m| order_key(skill_balance(m))).collect()
}

#[test]
fn greedy_selects_best() {
    let candidates = vec![pm(&[0, 1], &[2, 3]), pm(&[0, 3], &[1, 2])];
    let k = keys(&candidates);
    let selected = select_best(candidates, &k);
    assert_eq!(selected.len(), 1);
    assert_eq!(selected[0].team_a, vec![PlayerId(0), PlayerId(3)]);
}

#[test]
fn threshold_selects_first_above_min() {
    let candidates = vec![pm(&[0], &[3]), pm(&[1], &[2])];
    let meets: Vec<bool> = candidates.iter().map(|m| skill_balance(m) >= 0.5).collect();
    let selected = select_first_meeting(candidates, &meets);
    assert!(!selected.is_empty(), "should select at least one candidate");
    assert_eq!(selected[0].team_a, vec![PlayerId(1)]);
}

#[test]
fn empty_candidates_returns_empty() {
    let selected = select_best(vec![], &[]);
    assert!(selected.is_empty());
}

#[test]
fn greedy_takes_the_last_of_equals() {
    let candidates = vec![pm(&[0], &[1]), pm(&[2], &[3]), pm(&[1], &[0])];
    let selected = select_best(candidates, &[7, 3, 7]);
    assert_eq!(selected[0].team_a, vec![PlayerId(1)]);
}

#[test]
fn threshold_without_a_match_selects_nothing() {
    let candidates = vec![pm(&[0], &[3]), pm(&[1], &[2])];
    assert!(select_first_meeting(candidates, &[false, false]).is_empty());
}

#[test]
fn weighted_ranks_every_candidate_by_descending_key() {
    let candidates = vec![pm(&[0], &[1]), pm(&[2], &[3]), pm(&[4], &[5]), pm(&[6], &[7])];
    let selected = select_weighted(candidates, &[3, 9, 3, 1]);
    let firsts: Vec<u64> = selected.iter().map(|m| m.team_a[0].0).collect();
    // key 9, then the two keys of 3 in their given order, then 1
    assert_eq!(firsts, vec![2, 0, 4, 6]);
}

#[test]
fn weighted_takes_out_in_descending_order() {
    let candidates = vec![pm(&[0], &[1]), pm(&[2], &[3])];
    let selected = select_weighted(candidates, &[1, 5]);
    assert_eq!(selected.len(), 2);
    assert_eq!(selected[0].team_a, vec![PlayerId(2)]);
    assert_eq!(selected[1].team_a, vec![PlayerId(0)]);
}
