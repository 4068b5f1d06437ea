use matchlab::constraint::{
    HardConstraint, MatchConstraint, PartyIntegrityConstraint, ProposedMatch, RegionConstraint, RoleConstraint,
    RoleRequirement, TeamConstraint, TeamSizeConstraint,
};
use matchlab::ids::{PlayerId, Region};
use matchlab::world::{PlayerProfile, World};

fn make_world_with_roles() -> (World, Vec<PlayerId>) {
    let mut world = World::new();
    let mut ids = Vec::new();
    for i in 0..6u64 {
        let id = PlayerId(i + 1);
        ids.push(id);
        let role = if i < 2 {
            Some("tank".to_string())
        } else if i < 4 {
            Some("damage".to_string())
        } else {
            Some("support".to_string())
        };
        world.add_player(id, PlayerProfile { role, party_id: None, region: Region::NA, queue_joined_at: None });
    }
    (world, ids)
}

fn req(role: &str, min_count: usize, max_count: Option<usize>) -> RoleRequirement {
    RoleRequirement { role: role.to_string(), min_count, max_count }
}

#[test]
fn team_constraint_valid() {
    let constraint = TeamConstraint {
        required_roles: vec![req("tank", 1, None), req("damage", 2, None)],
        team_size: 5,
        asymmetric: false,
    };
    let (world, ids) = make_world_with_roles();
    let team = vec![ids[0], ids[2], ids[3], ids[4], ids[5]];
    assert!(constraint.validate(&team, &world).is_ok());
}

#[test]
fn team_constraint_wrong_size() {
    let constraint = TeamConstraint { required_roles: vec![], team_size: 5, asymmetric: false };
    let (world, ids) = make_world_with_roles();
    let team = vec![ids[0], ids[1]];
    assert!(constraint.validate(&team, &world).is_err());
}

#[test]
fn team_constraint_missing_role() {
    let constraint = TeamConstraint {
        required_roles: vec![req("healer", 1, None)],
        team_size: 5,
        asymmetric: false,
    };
    let (world, ids) = make_world_with_roles();
    let team = vec![ids[0], ids[2], ids[3], ids[4], ids[5]];
    assert!(constraint.validate(&team, &world).is_err());
}

#[test]
fn role_constraint_passes() {
    let constraint = RoleConstraint { requirements: vec![req("tank", 1, None)] };
    let (world, ids) = make_world_with_roles();
    let proposed = ProposedMatch {
        team_a: vec![ids[0], ids[2], ids[3]],
        team_b: vec![ids[1], ids[4], ids[5]],
    };
    assert!(constraint.is_satisfied(&proposed, &world));
}

#[test]
fn role_constraint_fails() {
    let constraint = RoleConstraint { requirements: vec![req("healer", 1, None)] };
    let (world, ids) = make_world_with_roles();
    let proposed = ProposedMatch {
        team_a: vec![ids[0], ids[2], ids[3]],
        team_b: vec![ids[1], ids[4], ids[5]],
    };
    assert!(!constraint.is_satisfied(&proposed, &world));
}

#[test]
fn team_size_constraint() {
    let constraint = TeamSizeConstraint { size_a: 3, size_b: 3 };
    let (world, ids) = make_world_with_roles();
    let proposed = ProposedMatch {
        team_a: vec![ids[0], ids[2], ids[3]],
        team_b: vec![ids[1], ids[4], ids[5]],
    };
    assert!(constraint.is_satisfied(&proposed, &world));
    let wrong = ProposedMatch { team_a: vec![ids[0], ids[2]], team_b: vec![ids[1], ids[4], ids[5]] };
    assert!(!constraint.is_satisfied(&wrong, &world));
}

#[test]
fn violation_codes_and_messages() {
    let (world, ids) = make_world_with_roles();
    let sized = TeamConstraint { required_roles: vec![], team_size: 5, asymmetric: false };
    let v = sized.validate(&[ids[0], ids[1]], &world).unwrap_err();
    assert_eq!(v.code, "TEAM_SIZE");
    assert_eq!(v.message, "team has 2 players, expected 5");
    assert_eq!(v.to_string(), "[TEAM_SIZE] team has 2 players, expected 5");

    let min = TeamConstraint {
        required_roles: vec![req("tank", 1, None), req("healer", 1, None)],
        team_size: 2,
        asymmetric: false,
    };
    let v = min.validate(&[ids[0], ids[2]], &world).unwrap_err();
    assert_eq!(v.code, "ROLE_MIN");
    assert_eq!(v.message, "role 'healer' has 0 players, minimum 1");

    let max = TeamConstraint {
        required_roles: vec![req("tank", 0, Some(1))],
        team_size: 2,
        asymmetric: false,
    };
    let v = max.validate(&[ids[0], ids[1]], &world).unwrap_err();
    assert_eq!(v.code, "ROLE_MAX");
    assert_eq!(v.message, "role 'tank' has 2 players, maximum 1");
}

#[test]
fn role_constraint_counts_both_teams_and_checks_max() {
    let (world, ids) = make_world_with_roles();
    let proposed = ProposedMatch { team_a: vec![ids[0]], team_b: vec![ids[1]] };
    let two_tanks = RoleConstraint { requirements: vec![req("tank", 2, Some(2))] };
    assert!(two_tanks.is_satisfied(&proposed, &world));
    let one_tank = RoleConstraint { requirements: vec![req("tank", 0, Some(1))] };
    assert!(!one_tank.is_satisfied(&proposed, &world));
    assert_eq!(
        RoleConstraint { requirements: vec![req("tank", 1, None), req("damage", 2, Some(3))] }
            .description(),
        "roles: tank:1, damage:2-3"
    );
}

#[test]
fn party_integrity_constraint_uses_world_parties() {
    let mut world = World::new();
    for id in 1..=4u64 {
        let party_id = if id <= 2 { Some(100) } else { None };
        world.add_player(PlayerId(id), PlayerProfile { role: None, party_id, region: Region::EU, queue_joined_at: None });
    }
    let whole = ProposedMatch { team_a: vec![PlayerId(1), PlayerId(3)], team_b: vec![PlayerId(2), PlayerId(4)] };
    let split = ProposedMatch { team_a: vec![PlayerId(1), PlayerId(3)], team_b: vec![PlayerId(4)] };
    assert!(PartyIntegrityConstraint.is_satisfied(&whole, &world));
    assert!(!PartyIntegrityConstraint.is_satisfied(&split, &world));
    assert_eq!(
        PartyIntegrityConstraint.description(),
        "all party members must be in the same match"
    );
}

#[test]
fn region_constraint_checks_cross_team_pairs() {
    let mut world = World::new();
    world.add_player(PlayerId(1), PlayerProfile { role: None, party_id: None, region: Region::NA, queue_joined_at: None });
    world.add_player(PlayerId(2), PlayerProfile { role: None, party_id: None, region: Region::EU, queue_joined_at: None });
    world.add_player(PlayerId(3), PlayerProfile { role: None, party_id: None, region: Region::Asia, queue_joined_at: None });
    let c = RegionConstraint { allowed_pairs: vec![(Region::EU, Region::NA)] };
    let ok = ProposedMatch { team_a: vec![PlayerId(1)], team_b: vec![PlayerId(2), PlayerId(99)] };
    let bad = ProposedMatch { team_a: vec![PlayerId(1)], team_b: vec![PlayerId(3)] };
    assert!(c.is_satisfied(&ok, &world));
    assert!(!c.is_satisfied(&bad, &world));
    assert_eq!(c.description(), "1 allowed region pairs");
    assert_eq!(TeamSizeConstraint { size_a: 1, size_b: 4 }.description(), "team sizes must be 1v4");
    let any = MatchConstraint::Region(c);
    assert!(!any.is_satisfied(&bad, &world));
}

#[test]
fn shipped_constraints_describe_themselves() {
    let size = MatchConstraint::TeamSize(TeamSizeConstraint { size_a: 5, size_b: 5 });
    assert_eq!(size.description(), "team sizes must be 5v5");
    assert_eq!(
        MatchConstraint::PartyIntegrity(PartyIntegrityConstraint).description(),
        "all party members must be in the same match"
    );
    let region = MatchConstraint::Region(RegionConstraint { allowed_pairs: vec![(Region::NA, Region::EU)] });
    assert_eq!(region.description(), "1 allowed region pairs");
}
