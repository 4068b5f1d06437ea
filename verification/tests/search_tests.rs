use matchlab::constraint::ProposedMatch;
use matchlab::ids::{PlayerId, Region, SimTime};
use matchlab::queue::QueueEntry;
use matchlab::rng::SimRng;
use matchlab::search::{
    sample_from_draws, BeamSearch, GreedySearch, MatchScorer, NearestKey, RandomSamplingSearch,
};

fn entry(id: u64) -> QueueEntry {
    QueueEntry {
        player_id: PlayerId(id),
        joined_at: SimTime::zero(),
        region: Region::NA,
        party_id: None,
        game_mode: "ranked".to_string(),
        role: None,
    }
}

fn queue_from(ids: &[u64]) -> Vec<QueueEntry> {
    ids.iter().map(|&id| entry(id)).collect()
}

/// Every player rated alike: every composition scores the same.
struct EvenScorer;

impl MatchScorer for EvenScorer {
    fn score_key(&self, _team_a: &[PlayerId], _team_b: &[PlayerId]) -> u64 {
        1000
    }
}

/// Prefers compositions whose team B holds high identifiers.
struct HighBScorer;

impl MatchScorer for HighBScorer {
    fn score_key(&self, _team_a: &[PlayerId], team_b: &[PlayerId]) -> u64 {
        team_b.iter().map(|p| p.0).sum()
    }
}

fn players(ms: &[ProposedMatch]) -> Vec<u64> {
    let mut all = Vec::new();
    for m in ms {
        all.extend(m.team_a.iter().map(|p| p.0));
        all.extend(m.team_b.iter().map(|p| p.0));
    }
    all
}

fn assert_disjoint(ms: &[ProposedMatch]) {
    let mut all = players(ms);
    let n = all.len();
    all.sort();
    all.dedup();
    assert_eq!(all.len(), n);
}

#[test]
fn random_sampling_returns_best_of_samples() {
    let queue = queue_from(&[1, 2, 3, 4]);
    let mut rng = SimRng::from_seed(7);
    let s1 = RandomSamplingSearch { samples: 1 };
    let matches = s1.search(&queue, &EvenScorer, 2, &mut rng);
    assert!(!matches.is_empty());
}

#[test]
fn beam_search_never_exceeds_width() {
    let queue = queue_from(&(1..=10).collect::<Vec<_>>());
    let bs = BeamSearch { width: 5 };
    let matches = bs.search(&queue, &EvenScorer, 5);
    assert!(!matches.is_empty());
}

#[test]
fn beam_search_ties_keep_generation_order() {
    let queue = queue_from(&[1, 2, 3, 4]);
    let bs = BeamSearch { width: 1 };
    let matches = bs.search(&queue, &EvenScorer, 2);
    assert_eq!(matches.len(), 1);
    assert_eq!(matches[0].team_a, vec![PlayerId(1), PlayerId(3)]);
    assert_eq!(matches[0].team_b, vec![PlayerId(2), PlayerId(4)]);
}

#[test]
fn beam_search_follows_the_score() {
    let queue = queue_from(&[1, 2, 3, 4, 5, 6]);
    let bs = BeamSearch { width: 3 };
    let matches = bs.search(&queue, &HighBScorer, 1);
    // anchor 1 takes the best partner for team B, and so on
    assert_eq!(matches.len(), 3);
    assert_eq!(matches[0].team_a, vec![PlayerId(1)]);
    assert_eq!(matches[0].team_b, vec![PlayerId(6)]);
    assert_eq!(matches[1].team_a, vec![PlayerId(2)]);
    assert_eq!(matches[1].team_b, vec![PlayerId(5)]);
    assert_disjoint(&matches);
}

#[test]
fn beam_search_zero_width_forms_nothing() {
    let queue = queue_from(&[1, 2, 3, 4]);
    let bs = BeamSearch { width: 0 };
    assert!(bs.search(&queue, &EvenScorer, 2).is_empty());
}

#[test]
fn beam_search_too_few_players_forms_nothing() {
    let queue = queue_from(&[1, 2, 3]);
    let bs = BeamSearch { width: 4 };
    assert!(bs.search(&queue, &EvenScorer, 2).is_empty());
}

#[test]
fn random_sampling_uses_each_player_once() {
    let queue = queue_from(&(1..=12).collect::<Vec<_>>());
    let mut rng = SimRng::from_seed(3);
    let s = RandomSamplingSearch { samples: 4 };
    let matches = s.search(&queue, &HighBScorer, 2, &mut rng);
    assert_eq!(matches.len(), 3);
    for m in &matches {
        assert_eq!(m.team_a.len(), 2);
        assert_eq!(m.team_b.len(), 2);
    }
    assert_disjoint(&matches);
    assert_eq!(players(&matches).len(), 12);
}

#[test]
fn random_sampling_without_samples_forms_nothing() {
    let queue = queue_from(&[1, 2, 3, 4]);
    let mut rng = SimRng::from_seed(3);
    let s = RandomSamplingSearch { samples: 0 };
    assert!(s.search(&queue, &EvenScorer, 2, &mut rng).is_empty());
}

#[test]
fn random_sampling_keeps_anchor_first() {
    let queue = queue_from(&[5, 6, 7, 8]);
    let mut rng = SimRng::from_seed(9);
    let s = RandomSamplingSearch { samples: 3 };
    let matches = s.search(&queue, &EvenScorer, 2, &mut rng);
    assert_eq!(matches.len(), 1);
    assert_eq!(matches[0].team_a[0], PlayerId(5));
}

#[test]
fn beam_search_leaves_fewer_than_two_teams_unmatched() {
    let queue = queue_from(&(1..=11).collect::<Vec<_>>());
    let bs = BeamSearch { width: 1 };
    let matches = bs.search(&queue, &EvenScorer, 2);
    assert_eq!(matches.len(), 2);
    assert_disjoint(&matches);
    assert_eq!(11 - players(&matches).len(), 3);
}

/// Distances between floating-point ratings, measured from a team's mean.
struct Ratings(Vec<(u64, f64)>);

impl Ratings {
    fn of(&self, p: PlayerId) -> f64 {
        self.0.iter().find(|(id, _)| *id == p.0).map(|(_, r)| *r).unwrap_or(0.0)
    }
}

impl NearestKey for Ratings {
    fn distance_key(&self, team: &[PlayerId], candidate: PlayerId) -> u64 {
        let mean = team.iter().map(|p| self.of(*p)).sum::<f64>() / team.len() as f64;
        let diff = (mean - self.of(candidate)).abs();
        if diff.is_finite() {
            diff.to_bits()
        } else {
            u64::MAX
        }
    }
}

#[test]
fn greedy_forms_matches_from_queue() {
    let ratings = Ratings(vec![(1, 1000.0), (2, 1000.0), (3, 1000.0), (4, 1000.0)]);
    let queue = queue_from(&[1, 2, 3, 4]);
    let matches = GreedySearch.search(&queue, &ratings, 2);
    assert_eq!(matches.len(), 1);
    assert_eq!(matches[0].team_a.len(), 2);
    assert_eq!(matches[0].team_b.len(), 2);
}

#[test]
fn greedy_takes_the_nearest_rating_first() {
    let ratings = Ratings(vec![(1, 1000.0), (2, 1500.0), (3, 1010.0), (4, 1200.0), (5, 990.0)]);
    let queue = queue_from(&[1, 2, 3, 4, 5]);
    let matches = GreedySearch.search(&queue, &ratings, 2);
    assert_eq!(matches.len(), 1);
    // anchor 1 (1000): nearest is 3 (1010) on team B, then 5 (990) on team
    // A, then from the mean 995 the nearest left is 4 (1200) on team B
    assert_eq!(players(&matches), vec![1, 5, 3, 4]);
}

#[test]
fn greedy_consumes_a_failed_attempt() {
    let ratings = Ratings((1..=7).map(|id| (id, 1000.0)).collect());
    let queue = queue_from(&[1, 2, 3, 4, 5, 6, 7]);
    let matches = GreedySearch.search(&queue, &ratings, 2);
    // the first four form a match; the last three cannot fill two teams
    assert_eq!(matches.len(), 1);
    assert_eq!(players(&matches), vec![1, 3, 2, 4]);
    assert_disjoint(&matches);
}

#[test]
fn greedy_never_takes_an_infinite_distance() {
    let ratings = Ratings(vec![(1, 1000.0), (2, f64::INFINITY), (3, 1000.0), (4, 1000.0)]);
    let queue = queue_from(&[1, 2, 3, 4]);
    assert!(GreedySearch.search(&queue, &ratings, 2).is_empty());
}

#[test]
fn greedy_zero_team_size_forms_nothing() {
    let ratings = Ratings(vec![(1, 1000.0), (2, 1000.0)]);
    assert!(GreedySearch.search(&queue_from(&[1, 2]), &ratings, 0).is_empty());
}

#[test]
fn beam_search_keeps_best_scored_pairs() {
    let queue = queue_from(&[1, 2, 3, 4]);
    let bs = BeamSearch { width: 1 };
    let matches = bs.search(&queue, &HighBScorer, 2);
    assert_eq!(matches.len(), 1);
    assert_eq!(matches[0].team_a, vec![PlayerId(1), PlayerId(2)]);
    assert_eq!(matches[0].team_b, vec![PlayerId(4), PlayerId(3)]);
}

#[test]
fn random_sampling_keeps_first_best_sample() {
    let queue = queue_from(&[1, 2, 3, 4]);
    let mut rng = SimRng::from_seed(21);
    let s = RandomSamplingSearch { samples: 5 };
    let matches = s.search(&queue, &HighBScorer, 2, &mut rng);
    assert_eq!(matches.len(), 1);

    // replay the draws: each sample removes three players from [2, 3, 4]
    let mut replay = SimRng::from_seed(21);
    let mut best: Option<(u64, Vec<u64>, Vec<u64>)> = None;
    for _ in 0..5 {
        let mut pool = vec![2u64, 3, 4];
        let mut picks = Vec::new();
        for t in 0..3 {
            let idx = replay.gen_index(3 - t);
            picks.push(pool.remove(idx));
        }
        let a = vec![1, picks[0]];
        let b = vec![picks[1], picks[2]];
        let key: u64 = b.iter().sum();
        let better = match &best {
            Some((k, _, _)) => key > *k,
            None => true,
        };
        if better {
            best = Some((key, a, b));
        }
    }
    let (_, a, b) = best.unwrap();
    let got_a: Vec<u64> = matches[0].team_a.iter().map(|p| p.0).collect();
    let got_b: Vec<u64> = matches[0].team_b.iter().map(|p| p.0).collect();
    assert_eq!(got_a, a);
    assert_eq!(got_b, b);
    assert_eq!(rng.gen_u64(), replay.gen_u64());
}

#[test]
fn random_sampling_without_samples_draws_nothing() {
    let queue = queue_from(&[1, 2, 3, 4]);
    let mut rng = SimRng::from_seed(5);
    let s = RandomSamplingSearch { samples: 0 };
    assert!(s.search(&queue, &EvenScorer, 2, &mut rng).is_empty());
    let mut fresh = SimRng::from_seed(5);
    assert_eq!(rng.gen_u64(), fresh.gen_u64());
}

#[test]
fn sample_from_draws_takes_players_in_turn() {
    let pool = vec![PlayerId(2), PlayerId(3), PlayerId(4)];
    let m = sample_from_draws(PlayerId(1), &pool, &[2, 0, 0], 2);
    assert_eq!(m.team_a, vec![PlayerId(1), PlayerId(4)]);
    assert_eq!(m.team_b, vec![PlayerId(2), PlayerId(3)]);
}

/// Scores every composition as minus infinity would be keyed.
struct NeverScorer;

impl MatchScorer for NeverScorer {
    fn score_key(&self, _team_a: &[PlayerId], _team_b: &[PlayerId]) -> u64 {
        0
    }
}

/// Keys 0 (never kept) unless player 2 is on team B.
struct WantsTwoOnB;

impl MatchScorer for WantsTwoOnB {
    fn score_key(&self, _team_a: &[PlayerId], team_b: &[PlayerId]) -> u64 {
        if team_b.contains(&PlayerId(2)) {
            5
        } else {
            0
        }
    }
}

#[test]
fn random_sampling_keeps_no_sample_keyed_zero() {
    let queue = queue_from(&[1, 2, 3, 4, 5, 6, 7, 8]);
    let mut rng = SimRng::from_seed(13);
    let s = RandomSamplingSearch { samples: 6 };
    assert!(s.search(&queue, &NeverScorer, 2, &mut rng).is_empty());
}

#[test]
fn random_sampling_skips_samples_keyed_zero() {
    let queue = queue_from(&[1, 2, 3, 4]);
    let mut rng = SimRng::from_seed(17);
    let s = RandomSamplingSearch { samples: 40 };
    let matches = s.search(&queue, &WantsTwoOnB, 2, &mut rng);
    assert_eq!(matches.len(), 1);
    assert!(matches[0].team_b.contains(&PlayerId(2)));
}
