use matchlab::ids::PlayerId;
use matchlab::leaderboard::Leaderboard;
use matchlab::rank::Rank;

fn rank(tier: &str) -> Rank {
    Rank {
        tier: tier.to_string(),
        division: 1,
    }
}

#[test]
fn update_inserts_new_entries_and_sorts_descending() {
    let mut lb = Leaderboard::new();
    lb.update(PlayerId(1), 1000, rank("silver"), 10);
    lb.update(PlayerId(2), 1500, rank("platinum"), 20);
    lb.update(PlayerId(3), 800, rank("bronze"), 5);

    assert_eq!(lb.len(), 3);
    assert_eq!(lb.entries()[0].player_id, PlayerId(2));
    assert_eq!(lb.entries()[1].player_id, PlayerId(1));
    assert_eq!(lb.entries()[2].player_id, PlayerId(3));
}

#[test]
fn update_replaces_existing_entry_and_resorts() {
    let mut lb = Leaderboard::new();
    lb.update(PlayerId(1), 1000, rank("silver"), 10);
    lb.update(PlayerId(1), 1600, rank("platinum"), 11);

    assert_eq!(lb.len(), 1);
    assert_eq!(lb.entries()[0].rating, 1600);
    assert_eq!(lb.entries()[0].rank.tier, "platinum");
    assert_eq!(lb.entries()[0].games_played, 11);
}

#[test]
fn rank_of_returns_position() {
    let mut lb = Leaderboard::new();
    lb.update(PlayerId(1), 1000, rank("silver"), 10);
    lb.update(PlayerId(2), 1500, rank("platinum"), 20);
    lb.update(PlayerId(3), 800, rank("bronze"), 5);

    assert_eq!(lb.rank_of(PlayerId(2)), Some(0));
    assert_eq!(lb.rank_of(PlayerId(1)), Some(1));
    assert_eq!(lb.rank_of(PlayerId(3)), Some(2));
    assert_eq!(lb.rank_of(PlayerId(999)), None);
}

#[test]
fn top_n_returns_correct_slice() {
    let mut lb = Leaderboard::new();
    for i in 1..=10u64 {
        lb.update(PlayerId(i), i * 100, rank("silver"), 1);
    }

    let top = lb.top_n(3);
    assert_eq!(top.len(), 3);
    assert_eq!(top[0].player_id, PlayerId(10));
    assert_eq!(top[2].player_id, PlayerId(8));
}

#[test]
fn top_n_clamps_when_n_exceeds_len() {
    let mut lb = Leaderboard::new();
    lb.update(PlayerId(1), 1000, rank("silver"), 1);
    lb.update(PlayerId(2), 1500, rank("platinum"), 1);

    let top = lb.top_n(10);
    assert_eq!(top.len(), 2);
}

#[test]
fn empty_leaderboard_is_empty() {
    let lb = Leaderboard::new();
    assert!(lb.is_empty());
    assert_eq!(lb.len(), 0);
    assert!(lb.top_n(5).is_empty());
}

#[test]
fn equal_ratings_keep_their_order() {
    let mut lb = Leaderboard::default();
    lb.update(PlayerId(1), 1200, rank("gold"), 1);
    lb.update(PlayerId(2), 1200, rank("gold"), 1);
    lb.update(PlayerId(3), 1200, rank("gold"), 1);
    // player 2's rating is unchanged: it stays between 1 and 3
    lb.update(PlayerId(2), 1200, rank("gold"), 2);
    let ids: Vec<u64> = lb.entries().iter().map(|e| e.player_id.0).collect();
    assert_eq!(ids, vec![1, 2, 3]);
    // a newcomer with the same rating goes after them
    lb.update(PlayerId(4), 1200, rank("gold"), 1);
    assert_eq!(lb.rank_of(PlayerId(4)), Some(3));
    // player 3 rises above everyone
    lb.update(PlayerId(3), 1300, rank("gold"), 2);
    let ids: Vec<u64> = lb.entries().iter().map(|e| e.player_id.0).collect();
    assert_eq!(ids, vec![3, 1, 2, 4]);
}

#[test]
fn update_then_lookup_reads_back_the_entry() {
    let mut lb = Leaderboard::new();
    for i in 1..=5u64 {
        lb.update(PlayerId(i), 1000 + i, rank("silver"), i);
    }
    lb.update(PlayerId(3), 900, rank("bronze"), 7);
    let pos = lb.rank_of(PlayerId(3)).unwrap();
    let e = &lb.entries()[pos];
    assert_eq!(e.rating, 900);
    assert_eq!(e.rank, rank("bronze"));
    assert_eq!(e.games_played, 7);
    assert_eq!(lb.len(), 5);
}
