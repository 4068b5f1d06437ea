use matchlab::cohort::{CohortFilter, PlayerFacts};
use matchlab::ids::{PlayerId, Region};

fn reality(skill: u64, games: u64, archetype: &str) -> PlayerFacts {
    PlayerFacts {
        skill,
        archetype: archetype.to_string(),
        games_played: games,
        region: Region::NA,
        party_id: None,
        session_length: 1800,
    }
}

#[test]
fn skill_range_filters_correctly() {
    let f = CohortFilter::SkillRange(900, 1100);
    assert!(f.matches(&reality(1000, 10, "stable")));
    assert!(!f.matches(&reality(800, 10, "stable")));
    assert!(!f.matches(&reality(1200, 10, "stable")));
}

#[test]
fn archetype_filters_correctly() {
    let f = CohortFilter::Archetype("smurf".to_string());
    assert!(f.matches(&reality(1500, 5, "smurf")));
    assert!(!f.matches(&reality(1000, 10, "stable")));
}

#[test]
fn smurf_by_properties_filters_correctly() {
    let f = CohortFilter::IsSmurfByProperties { min_skill: 1300, max_games: 20 };
    assert!(f.matches(&reality(1500, 5, "stable")));
    assert!(!f.matches(&reality(1500, 50, "stable")));
    assert!(!f.matches(&reality(1000, 5, "stable")));
}

#[test]
fn all_matches_everything() {
    assert!(CohortFilter::All.matches(&reality(500, 0, "x")));
}

#[test]
fn party_size_distinguishes_parties_from_solos() {
    let solo = reality(1000, 1, "a");
    let mut grouped = reality(1000, 1, "a");
    grouped.party_id = Some(7);
    assert!(CohortFilter::PartySize(1).matches(&solo));
    assert!(!CohortFilter::PartySize(1).matches(&grouped));
    assert!(CohortFilter::PartySize(3).matches(&grouped));
    assert!(!CohortFilter::PartySize(3).matches(&solo));
}

#[test]
fn filter_player_ids_keeps_order() {
    let players = vec![
        (PlayerId(3), reality(1000, 10, "a")),
        (PlayerId(1), reality(2000, 10, "a")),
        (PlayerId(2), reality(1050, 10, "a")),
    ];
    let f = CohortFilter::SkillRange(900, 1100);
    assert_eq!(f.filter_player_ids(&players), vec![PlayerId(3), PlayerId(2)]);
    let g = CohortFilter::GamesPlayedRange(0, 5);
    assert!(g.filter_player_ids(&players).is_empty());
    let r = CohortFilter::Region(Region::EU);
    assert!(r.filter_player_ids(&players).is_empty());
    let s = CohortFilter::SessionLength(1000, 2000);
    assert_eq!(s.filter_player_ids(&players).len(), 3);
}
