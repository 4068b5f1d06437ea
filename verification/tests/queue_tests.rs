use matchlab::ids::{PlayerId, Region, SimTime};
use matchlab::queue::{Queue, QueueEntry};

fn entry(id: u64, joined_at: SimTime) -> QueueEntry {
    QueueEntry {
        player_id: PlayerId(id),
        joined_at,
        region: Region::NA,
        party_id: None,
        game_mode: "ranked".to_string(),
        role: None,
    }
}

fn ids(q: &Queue) -> Vec<u64> {
    q.entries().iter().map(|e| e.player_id.0).collect()
}

#[test]
fn enqueue_preserves_fifo_order() {
    let mut q = Queue::default();
    q.enqueue(entry(1, SimTime::from_secs(1)));
    q.enqueue(entry(2, SimTime::from_secs(2)));
    q.enqueue(entry(3, SimTime::from_secs(3)));
    assert_eq!(q.len(), 3);
    assert!(!q.is_empty());
    assert_eq!(ids(&q), vec![1, 2, 3]);
}

#[test]
fn waiting_time_measures_since_joined_at_and_advances() {
    let mut q = Queue::default();
    q.enqueue(entry(1, SimTime::from_secs(10)));
    assert_eq!(
        q.waiting_time(PlayerId(1), SimTime::from_secs(15)),
        Some(SimTime::from_secs(5))
    );
    assert_eq!(
        q.waiting_time(PlayerId(1), SimTime::from_secs(30)),
        Some(SimTime::from_secs(20))
    );
    assert_eq!(q.waiting_time(PlayerId(99), SimTime::from_secs(30)), None);
}

#[test]
fn remove_returns_entry_and_shrinks_queue() {
    let mut q = Queue::default();
    q.enqueue(entry(1, SimTime::zero()));
    q.enqueue(entry(2, SimTime::zero()));
    q.enqueue(entry(3, SimTime::zero()));
    let removed = q.remove(PlayerId(2)).expect("player 2 should be present");
    assert_eq!(removed.player_id, PlayerId(2));
    assert_eq!(q.len(), 2);
    assert_eq!(ids(&q), vec![1, 3]);
    assert!(q.remove(PlayerId(42)).is_none());
}

#[test]
fn remove_batch_removes_those_present_only() {
    let mut q = Queue::default();
    q.enqueue(entry(1, SimTime::zero()));
    q.enqueue(entry(2, SimTime::zero()));
    q.enqueue(entry(3, SimTime::zero()));
    let removed = q.remove_batch(&[PlayerId(1), PlayerId(3), PlayerId(99)]);
    assert_eq!(removed.len(), 2);
    assert_eq!(ids(&q), vec![2]);
}

#[test]
fn from_entries_builds_queue() {
    let q = Queue::from_entries(vec![entry(1, SimTime::zero()), entry(2, SimTime::zero())]);
    assert_eq!(q.len(), 2);
    assert!(!q.is_empty());
}

#[test]
fn remove_takes_first_of_duplicates() {
    let mut q = Queue::new();
    q.enqueue(entry(7, SimTime::from_secs(1)));
    q.enqueue(entry(8, SimTime::from_secs(2)));
    q.enqueue(entry(7, SimTime::from_secs(3)));
    let removed = q.remove(PlayerId(7)).unwrap();
    assert_eq!(removed.joined_at, SimTime::from_secs(1));
    assert_eq!(ids(&q), vec![8, 7]);
}

#[test]
fn enqueue_then_remove_restores_queue() {
    let mut q = Queue::new();
    q.enqueue(entry(1, SimTime::from_secs(1)));
    q.enqueue(entry(2, SimTime::from_secs(2)));
    q.enqueue(entry(5, SimTime::from_secs(9)));
    let removed = q.remove(PlayerId(5)).unwrap();
    assert_eq!(removed.joined_at, SimTime::from_secs(9));
    assert_eq!(ids(&q), vec![1, 2]);
}

#[test]
fn waiting_time_is_zero_before_joining() {
    let mut q = Queue::new();
    q.enqueue(entry(1, SimTime::from_secs(10)));
    assert_eq!(q.waiting_time(PlayerId(1), SimTime::from_secs(4)), Some(SimTime::zero()));
}

#[test]
fn remove_batch_returns_entries_in_batch_order() {
    let mut q = Queue::new();
    for id in 1..=5u64 {
        q.enqueue(entry(id, SimTime::from_micros(id)));
    }
    let removed = q.remove_batch(&[PlayerId(4), PlayerId(2), PlayerId(4)]);
    let got: Vec<u64> = removed.iter().map(|e| e.player_id.0).collect();
    assert_eq!(got, vec![4, 2]);
    assert_eq!(ids(&q), vec![1, 3, 5]);
}
