use matchlab::ids::{PlayerId, SimTime};
use matchlab::party::{check_party_integrity, Party, PartyRegistry};

#[test]
fn solo_party_has_one_member() {
    let p = Party::solo(PlayerId(1), SimTime::zero());
    assert_eq!(p.size(), 1);
    assert!(p.is_solo());
    assert!(p.contains(PlayerId(1)));
    assert!(!p.contains(PlayerId(2)));
}

#[test]
fn multi_player_party() {
    let p = Party::new(
        42,
        vec![PlayerId(1), PlayerId(2), PlayerId(3)],
        SimTime::zero(),
        None,
    )
    .unwrap();
    assert_eq!(p.size(), 3);
    assert!(!p.is_solo());
    assert!(p.contains(PlayerId(2)));
}

#[test]
fn party_size_limit_enforced() {
    let p = Party::new(
        1,
        vec![PlayerId(1), PlayerId(2), PlayerId(3)],
        SimTime::zero(),
        Some(2),
    );
    assert!(p.is_err());
}

#[test]
fn empty_party_rejected() {
    let p = Party::new(1, vec![], SimTime::zero(), None);
    assert!(p.is_err());
}

#[test]
fn party_registry_register_and_get() {
    let mut reg = PartyRegistry::default();
    let p = Party::solo(PlayerId(1), SimTime::zero());
    let id = reg.register(p);
    assert_eq!(id, 1);
    assert!(reg.get(1).is_some());
    assert!(reg.get(99).is_none());
    assert_eq!(reg.len(), 1);
}

#[test]
fn party_registry_remove() {
    let mut reg = PartyRegistry::default();
    reg.register(Party::solo(PlayerId(1), SimTime::zero()));
    let removed = reg.remove(1);
    assert!(removed.is_some());
    assert!(reg.is_empty());
}

#[test]
fn party_integrity_check_passes() {
    let mut reg = PartyRegistry::default();
    reg.register(Party::new(1, vec![PlayerId(1), PlayerId(2)], SimTime::zero(), None).unwrap());
    let result = check_party_integrity(&[PlayerId(1), PlayerId(2)], &[PlayerId(3)], &reg);
    assert!(result.is_ok());
}

#[test]
fn party_integrity_check_fails_on_split() {
    let mut reg = PartyRegistry::default();
    reg.register(Party::new(1, vec![PlayerId(1), PlayerId(2)], SimTime::zero(), None).unwrap());
    let result = check_party_integrity(&[PlayerId(1)], &[PlayerId(3)], &reg);
    assert!(result.is_err());
    assert!(result.unwrap_err().contains("party integrity"));
}

#[test]
fn party_integrity_ignores_solos() {
    let reg = PartyRegistry::default();
    let result = check_party_integrity(&[PlayerId(1), PlayerId(2)], &[PlayerId(3)], &reg);
    assert!(result.is_ok());
}

#[test]
fn party_error_messages_are_exact() {
    let empty = Party::new(1, vec![], SimTime::zero(), None).unwrap_err();
    assert_eq!(empty, "party must have at least one member");
    let big = Party::new(
        1,
        vec![PlayerId(1), PlayerId(2), PlayerId(3)],
        SimTime::zero(),
        Some(2),
    )
    .unwrap_err();
    assert_eq!(big, "party has 3 members, exceeding limit of 2");
}

#[test]
fn party_at_limit_accepted() {
    let p = Party::new(9, vec![PlayerId(1), PlayerId(2)], SimTime::from_secs(3), Some(2)).unwrap();
    assert_eq!(p.id, 9);
    assert_eq!(p.party_size_limit, Some(2));
    assert_eq!(p.created_at, SimTime::from_secs(3));
}

#[test]
fn integrity_message_names_the_split_party() {
    let mut reg = PartyRegistry::new();
    reg.register(Party::new(17, vec![PlayerId(4), PlayerId(5)], SimTime::zero(), None).unwrap());
    let err = check_party_integrity(&[PlayerId(5)], &[PlayerId(6)], &reg).unwrap_err();
    assert_eq!(
        err,
        "party 17 has members not in the match (party integrity violated)"
    );
    // a party entirely outside the match is not split
    assert!(check_party_integrity(&[PlayerId(1)], &[PlayerId(2)], &reg).is_ok());
    // a party entirely inside, across both teams, is not split
    assert!(check_party_integrity(&[PlayerId(4)], &[PlayerId(5)], &reg).is_ok());
}

#[test]
fn registry_next_id_counts_up_and_parties_lists_all() {
    let mut reg = PartyRegistry::new();
    assert_eq!(reg.next_id(), 0);
    assert_eq!(reg.next_id(), 1);
    assert_eq!(reg.next_id(), 2);
    reg.register(Party::solo(PlayerId(3), SimTime::zero()));
    reg.register(Party::solo(PlayerId(8), SimTime::zero()));
    reg.register(Party::solo(PlayerId(3), SimTime::from_secs(1)));
    let mut ids: Vec<u64> = reg.parties().iter().map(|p| p.id).collect();
    ids.sort();
    assert_eq!(ids, vec![3, 8]);
    assert_eq!(reg.get(3).unwrap().created_at, SimTime::from_secs(1));
}

#[test]
fn party_registry_get_mut_changes_in_place() {
    let mut reg = PartyRegistry::new();
    reg.register(Party::solo(PlayerId(4), SimTime::zero()));
    if let Some(p) = reg.get_mut(4) {
        p.members.push(PlayerId(5));
    }
    assert_eq!(reg.get(4).unwrap().size(), 2);
    assert!(reg.get_mut(7).is_none());
    assert_eq!(reg.len(), 1);
}
