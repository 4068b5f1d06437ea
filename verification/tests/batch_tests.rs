use matchlab::batch::BatchMatchmaker;
use matchlab::constraint::{MatchConstraint, TeamSizeConstraint};
use matchlab::ids::{PlayerId, Region, SimTime};
use matchlab::queue::{Queue, QueueEntry};
use matchlab::rng::SimRng;
use matchlab::world::World;

fn entry(id: u64, joined_at: SimTime) -> QueueEntry {
    QueueEntry {
        player_id: PlayerId(id),
        joined_at,
        region: Region::NA,
        party_id: None,
        game_mode: "ranked".to_string(),
        role: None,
    }
}

fn pids(ids: &[u64]) -> Vec<PlayerId> {
    ids.iter().map(|&i| PlayerId(i)).collect()
}

#[test]
fn ten_players_team_size_five_forms_one_match_fifo() {
    let mut queue = Queue::default();
    for (id, t) in [(10, 100), (9, 90), (8, 80), (7, 70), (6, 60), (5, 50), (4, 40), (3, 30), (2, 20), (1, 10)] {
        queue.enqueue(entry(id, SimTime::from_secs(t)));
    }
    let world = World::new();
    let mm = BatchMatchmaker::new(1);
    let mut rng = SimRng::from_seed(7);
    let matches = mm.find_matches(&queue, &world, 5, SimTime::zero(), &mut rng);
    assert_eq!(matches.len(), 1);
    let m = &matches[0];
    assert_eq!(m.team_a, pids(&[1, 2, 3, 4, 5]));
    assert_eq!(m.team_b, pids(&[6, 7, 8, 9, 10]));
}

#[test]
fn fewer_than_twice_team_size_yields_no_matches() {
    let mut queue = Queue::default();
    for id in 1..=9u64 {
        queue.enqueue(entry(id, SimTime::from_secs(id)));
    }
    let world = World::new();
    let mm = BatchMatchmaker::new(1);
    let mut rng = SimRng::from_seed(7);
    let matches = mm.find_matches(&queue, &world, 5, SimTime::zero(), &mut rng);
    assert!(matches.is_empty());
}

#[test]
fn multiple_blocks_form_multiple_matches() {
    let mut queue = Queue::default();
    for id in 1..=20u64 {
        queue.enqueue(entry(id, SimTime::from_secs(id)));
    }
    let world = World::new();
    let mm = BatchMatchmaker::new(1);
    let mut rng = SimRng::from_seed(7);
    let matches = mm.find_matches(&queue, &world, 5, SimTime::zero(), &mut rng);
    assert_eq!(matches.len(), 2);
    assert_eq!(matches[0].team_a, pids(&[1, 2, 3, 4, 5]));
    assert_eq!(matches[1].team_b, pids(&[16, 17, 18, 19, 20]));
}

#[test]
fn deterministic_given_queue_and_seed() {
    let mut queue = Queue::default();
    for id in 1..=10u64 {
        queue.enqueue(entry(id, SimTime::from_secs(id)));
    }
    let world = World::new();
    let mm = BatchMatchmaker::new(1);
    let mut rng_a = SimRng::from_seed(99);
    let mut rng_b = SimRng::from_seed(12345);
    let a = mm.find_matches(&queue, &world, 5, SimTime::zero(), &mut rng_a);
    let b = mm.find_matches(&queue, &world, 5, SimTime::zero(), &mut rng_b);
    assert_eq!(a.len(), b.len());
    for (ma, mb) in a.iter().zip(b.iter()) {
        assert_eq!(ma.team_a, mb.team_a);
        assert_eq!(ma.team_b, mb.team_b);
    }
}

#[test]
fn equal_join_times_keep_queue_order_and_leftovers_wait() {
    let mut queue = Queue::new();
    for id in [4u64, 2, 9, 1, 7] {
        queue.enqueue(entry(id, SimTime::from_secs(5)));
    }
    let world = World::new();
    let mm = BatchMatchmaker::new(3);
    let mut rng = SimRng::from_seed(1);
    let matches = mm.find_matches(&queue, &world, 1, SimTime::zero(), &mut rng);
    assert_eq!(matches.len(), 2);
    assert_eq!(matches[0].team_a, pids(&[4]));
    assert_eq!(matches[0].team_b, pids(&[2]));
    assert_eq!(matches[1].team_a, pids(&[9]));
    assert_eq!(matches[1].team_b, pids(&[1]));
}

#[test]
fn constraints_filter_blocks() {
    let mut queue = Queue::new();
    for id in 1..=4u64 {
        queue.enqueue(entry(id, SimTime::from_secs(id)));
    }
    let world = World::new();
    let mut mm = BatchMatchmaker::new(1);
    mm.constraints.push(MatchConstraint::TeamSize(TeamSizeConstraint { size_a: 3, size_b: 3 }));
    let mut rng = SimRng::from_seed(1);
    assert!(mm.find_matches(&queue, &world, 1, SimTime::zero(), &mut rng).is_empty());
}

#[test]
fn team_size_zero_forms_one_empty_match() {
    let queue = Queue::new();
    let world = World::new();
    let mm = BatchMatchmaker::new(1);
    let mut rng = SimRng::from_seed(1);
    let matches = mm.find_matches(&queue, &world, 0, SimTime::zero(), &mut rng);
    assert_eq!(matches.len(), 1);
    assert!(matches[0].team_a.is_empty() && matches[0].team_b.is_empty());
}

#[test]
fn blocks_never_share_players() {
    let mut queue = Queue::default();
    for id in 1..=12u64 {
        queue.enqueue(entry(id, SimTime::from_secs(100 - id)));
    }
    let world = World::new();
    let mm = BatchMatchmaker::new(1);
    let mut rng = SimRng::from_seed(1);
    let matches = mm.find_matches(&queue, &world, 2, SimTime::zero(), &mut rng);
    assert_eq!(matches.len(), 3);
    let mut all: Vec<u64> = Vec::new();
    for m in &matches {
        all.extend(m.team_a.iter().map(|p| p.0));
        all.extend(m.team_b.iter().map(|p| p.0));
    }
    all.sort();
    all.dedup();
    assert_eq!(all.len(), 12);
}
