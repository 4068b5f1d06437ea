use matchlab::candidate::{candidate_from_bits, RandomSamplingGenerator, TeamComposition};
use matchlab::ids::{PlayerId, Region, SimTime};
use matchlab::leaderboard::Leaderboard;
use matchlab::queue::{Queue, QueueEntry};
use matchlab::rank::Rank;
use matchlab::rng::{apply_swaps, fisher_yates, shuffle_sim, SimRng};

fn queue_of(n: u64) -> Queue {
    let mut q = Queue::new();
    for id in 1..=n {
        q.enqueue(QueueEntry {
            player_id: PlayerId(id),
            joined_at: SimTime::from_secs(id),
            region: Region::NA,
            party_id: None,
            game_mode: "ranked".to_string(),
            role: None,
        });
    }
    q
}

#[test]
fn apply_swaps_follows_the_partners() {
    let mut items = vec![0usize, 1, 2, 3];
    apply_swaps(&mut items, &[1, 0, 0]);
    assert_eq!(items, vec![3, 2, 0, 1]);
}

#[test]
fn apply_swaps_with_own_positions_keeps_order() {
    let mut items = vec![5usize, 6, 7];
    apply_swaps(&mut items, &[2, 1]);
    assert_eq!(items, vec![5, 6, 7]);
}

#[test]
fn fisher_yates_is_the_swaps_of_its_draws() {
    let n = 9usize;
    let mut shuffled: Vec<usize> = (0..n).collect();
    let mut rng = SimRng::from_seed(7);
    fisher_yates(&mut shuffled, &mut rng);

    let mut replay = SimRng::from_seed(7);
    let partners: Vec<usize> = (0..n - 1).map(|k| replay.gen_index(n - k)).collect();
    let mut expected: Vec<usize> = (0..n).collect();
    apply_swaps(&mut expected, &partners);
    assert_eq!(shuffled, expected);

    let mut sorted = shuffled.clone();
    sorted.sort();
    assert_eq!(sorted, (0..n).collect::<Vec<usize>>());
}

#[test]
fn shuffle_sim_is_the_swaps_of_its_values() {
    let n = 8usize;
    let mut shuffled: Vec<usize> = (0..n).collect();
    let mut rng = SimRng::from_seed(11);
    shuffle_sim(&mut shuffled, &mut rng);

    let mut replay = SimRng::from_seed(11);
    let partners: Vec<usize> = (0..n - 1)
        .map(|k| (replay.gen_u64() % ((n - k) as u64)) as usize)
        .collect();
    let mut expected: Vec<usize> = (0..n).collect();
    apply_swaps(&mut expected, &partners);
    assert_eq!(shuffled, expected);
}

#[test]
fn shuffles_of_one_item_draw_nothing() {
    let mut one = vec![4usize];
    let mut rng = SimRng::from_seed(3);
    fisher_yates(&mut one, &mut rng);
    shuffle_sim(&mut one, &mut rng);
    assert_eq!(one, vec![4]);
    let mut fresh = SimRng::from_seed(3);
    assert_eq!(rng.gen_u64(), fresh.gen_u64());
}

#[test]
fn sampled_candidates_come_from_their_drawn_values() {
    let queue = queue_of(6);
    let teams = TeamComposition { team_size_a: 2, team_size_b: 2 };
    let generator = RandomSamplingGenerator { samples: 3 };
    let mut rng = SimRng::from_seed(42);
    let candidates = generator.generate_candidates(&queue, &teams, &mut rng);
    assert_eq!(candidates.len(), 3);

    let mut replay = SimRng::from_seed(42);
    for candidate in &candidates {
        let bits: Vec<u64> = (0..5).map(|_| replay.gen_u64()).collect();
        let expected = candidate_from_bits(queue.entries(), &teams, &bits);
        assert_eq!(candidate.team_a, expected.team_a);
        assert_eq!(candidate.team_b, expected.team_b);
    }
    assert_eq!(rng.gen_u64(), replay.gen_u64());
}

#[test]
fn candidate_from_bits_of_zero_values_keeps_queue_order() {
    let queue = queue_of(4);
    let teams = TeamComposition { team_size_a: 2, team_size_b: 1 };
    let m = candidate_from_bits(queue.entries(), &teams, &[3, 2, 1]);
    // every partner is the position itself: nothing moves
    assert_eq!(m.team_a, vec![PlayerId(1), PlayerId(2)]);
    assert_eq!(m.team_b, vec![PlayerId(3)]);
}

fn rank(tier: &str) -> Rank {
    Rank {
        tier: tier.to_string(),
        division: 1,
    }
}

#[test]
fn update_keeps_other_players_and_one_entry_per_player() {
    let mut lb = Leaderboard::new();
    lb.update(PlayerId(1), 1500, rank("gold"), 10);
    lb.update(PlayerId(2), 1700, rank("platinum"), 12);
    lb.update(PlayerId(3), 1600, rank("gold"), 8);
    lb.update(PlayerId(1), 1800, rank("diamond"), 11);
    let entries = lb.entries();
    assert_eq!(entries.len(), 3);
    let ids: Vec<u64> = entries.iter().map(|e| e.player_id.0).collect();
    assert_eq!(ids, vec![1, 2, 3]);
    assert_eq!(entries[0].rating, 1800);
    assert_eq!(entries[0].games_played, 11);
    assert_eq!(entries[1].rating, 1700);
    assert_eq!(entries[1].games_played, 12);
    assert_eq!(entries[2].rating, 1600);
    assert_eq!(entries[2].games_played, 8);
}
