use matchlab::ids::{PlayerId, Region, SimTime};
use matchlab::queue_time::QueueTimeCollector;
use matchlab::world::{PlayerProfile, World};

fn queued(joined_at: Option<SimTime>) -> PlayerProfile {
    PlayerProfile { role: None, party_id: None, region: Region::NA, queue_joined_at: joined_at }
}

fn secs(t: SimTime) -> f64 {
    t.micros as f64 / 1_000_000.0
}

#[test]
fn queue_time_equals_join_to_formation_wait_not_match_duration() {
    let mut world = World::new();
    world.add_player(PlayerId(1), queued(Some(SimTime::from_secs(190))));
    world.add_player(PlayerId(2), queued(Some(SimTime::from_secs(195))));
    let mut c = QueueTimeCollector::new();
    // formation at t = 200 s
    c.record_match(&[PlayerId(1)], &[PlayerId(2)], &world, SimTime::from_secs(200));
    assert_eq!(c.waits.len(), 2);
    assert!((secs(c.waits[0]) - 10.0).abs() < 1e-9);
    assert!((secs(c.waits[1]) - 5.0).abs() < 1e-9);
    let mean = c.waits.iter().map(|t| secs(*t)).sum::<f64>() / c.waits.len() as f64;
    assert!((mean - 7.5).abs() < 1e-9);
}

#[test]
fn players_without_queue_joined_at_are_skipped() {
    let mut world = World::new();
    world.add_player(PlayerId(1), queued(None));
    let mut c = QueueTimeCollector::new();
    c.record_match(&[PlayerId(1)], &[], &world, SimTime::from_secs(100));
    assert!(c.waits.is_empty());
}

#[test]
fn unknown_players_are_skipped_and_waits_accumulate() {
    let mut world = World::new();
    world.add_player(PlayerId(3), queued(Some(SimTime::from_secs(40))));
    let mut c = QueueTimeCollector::default();
    c.record_match(&[PlayerId(9)], &[PlayerId(3)], &world, SimTime::from_secs(50));
    c.record_match(&[PlayerId(3)], &[], &world, SimTime::from_secs(70));
    assert_eq!(c.waits, vec![SimTime::from_secs(10), SimTime::from_secs(30)]);
    assert_eq!(c.name(), "queue_time");
}

#[test]
fn a_join_after_formation_counts_as_no_wait() {
    let mut world = World::new();
    world.add_player(PlayerId(1), queued(Some(SimTime::from_secs(300))));
    let mut c = QueueTimeCollector::new();
    c.record_match(&[PlayerId(1)], &[], &world, SimTime::from_secs(200));
    assert_eq!(c.waits, vec![SimTime::zero()]);
}
