use matchlab::candidate::{
    ExhaustiveGenerator, GreedyNearestGenerator, RandomSamplingGenerator, TeamComposition,
};
use matchlab::combinations::combinations;
use matchlab::ids::{PlayerId, Region, SimTime};
use matchlab::queue::{Queue, QueueEntry};
use matchlab::rng::SimRng;

fn queue_of(n: u64) -> Queue {
    let mut q = Queue::new();
    for id in 1..=n {
        q.enqueue(QueueEntry {
            player_id: PlayerId(id),
            joined_at: SimTime::from_secs(id),
            region: Region::NA,
            party_id: None,
            game_mode: "ranked".to_string(),
            role: None,
        });
    }
    q
}

#[test]
fn combinations_basic() {
    let items = vec![1, 2, 3];
    let combos = combinations(&items, 2);
    assert_eq!(combos.len(), 3);
}

#[test]
fn combinations_empty() {
    let items: Vec<i32> = vec![];
    let combos = combinations(&items, 2);
    assert!(combos.is_empty());
}

#[test]
fn combinations_k_zero() {
    let items = vec![1, 2, 3];
    let combos = combinations(&items, 0);
    assert_eq!(combos, vec![vec![] as Vec<i32>]);
}

#[test]
fn combinations_k_exceeds_len() {
    let items = vec![1, 2];
    let combos = combinations(&items, 5);
    assert!(combos.is_empty());
}

#[test]
fn combinations_are_lexicographic() {
    let combos = combinations(&[1, 2, 3, 4], 2);
    assert_eq!(
        combos,
        vec![vec![1, 2], vec![1, 3], vec![1, 4], vec![2, 3], vec![2, 4], vec![3, 4]]
    );
    assert_eq!(combinations(&[5u8, 6, 7, 8, 9], 3).len(), 10);
}

#[test]
fn exhaustive_generator_lists_every_split() {
    let q = queue_of(3);
    let teams = TeamComposition { team_size_a: 1, team_size_b: 1 };
    let c = ExhaustiveGenerator.generate_candidates(&q, &teams);
    let pairs: Vec<(Vec<PlayerId>, Vec<PlayerId>)> =
        c.into_iter().map(|m| (m.team_a, m.team_b)).collect();
    assert_eq!(
        pairs,
        vec![
            (vec![PlayerId(1)], vec![PlayerId(2)]),
            (vec![PlayerId(1)], vec![PlayerId(3)]),
            (vec![PlayerId(2)], vec![PlayerId(3)]),
        ]
    );
    let big = TeamComposition { team_size_a: 2, team_size_b: 2 };
    assert!(ExhaustiveGenerator.generate_candidates(&q, &big).is_empty());
}

#[test]
fn greedy_nearest_generator_blocks_by_rating() {
    let q = queue_of(5);
    let teams = TeamComposition { team_size_a: 1, team_size_b: 1 };
    // ratings (as order keys): players 1..5 rated 50, 10, 40, 10, 30
    let keys = [50u64, 10, 40, 10, 30];
    let g = GreedyNearestGenerator { max_candidates: 5 };
    let c = g.generate_candidates(&q, &teams, &keys);
    assert_eq!(c.len(), 2);
    assert_eq!(c[0].team_a, vec![PlayerId(2)]);
    assert_eq!(c[0].team_b, vec![PlayerId(4)]);
    assert_eq!(c[1].team_a, vec![PlayerId(5)]);
    assert_eq!(c[1].team_b, vec![PlayerId(3)]);
    let capped = GreedyNearestGenerator { max_candidates: 1 };
    assert_eq!(capped.generate_candidates(&q, &teams, &keys).len(), 1);
}

#[test]
fn random_sampling_generator_draws_distinct_players() {
    let q = queue_of(6);
    let teams = TeamComposition { team_size_a: 2, team_size_b: 2 };
    let g = RandomSamplingGenerator { samples: 7 };
    let mut rng = SimRng::from_seed(3);
    let c = g.generate_candidates(&q, &teams, &mut rng);
    assert_eq!(c.len(), 7);
    for m in &c {
        assert_eq!(m.team_a.len(), 2);
        assert_eq!(m.team_b.len(), 2);
        let mut all: Vec<u64> = m.team_a.iter().chain(&m.team_b).map(|p| p.0).collect();
        all.sort();
        all.dedup();
        assert_eq!(all.len(), 4);
        assert!(all.iter().all(|&id| (1..=6).contains(&id)));
    }
    let short = queue_of(3);
    assert!(g.generate_candidates(&short, &teams, &mut rng).is_empty());
}
