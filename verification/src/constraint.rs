//! Hard constraints on proposed matches: team sizes, role requirements,
//! party integrity and allowed region pairs.
use vstd::prelude::*;
use crate::ids::{PlayerId, Region};
use crate::party::{contains_player, in_match};
use crate::text::{decimal, push_decimal, push_str};
use crate::world::{PlayerProfile, World};

verus! {

/// A match as proposed by a matchmaker: the two teams.
#[derive(Debug, Clone)]
pub struct ProposedMatch {
    pub team_a: Vec<PlayerId>,
    pub team_b: Vec<PlayerId>,
}

/// Requirement for a specific role in a team.
#[derive(Debug, Clone)]
pub struct RoleRequirement {
    pub role: String,
    pub min_count: usize,
    pub max_count: Option<usize>,
}

/// The player fills `role` according to the world.
pub open spec fn fills_role(w: Map<u64, PlayerProfile>, pid: PlayerId, role: Seq<char>) -> bool {
    w.contains_key(pid.0) && (w[pid.0].role matches Some(r) && r@ == role)
}

/// How many positions of `team` hold a player who fills `role`.
pub open spec fn role_count(team: Seq<PlayerId>, w: Map<u64, PlayerProfile>, role: Seq<char>) -> nat
    decreases team.len(),
{
    if team.len() == 0 {
        0
    } else {
        role_count(team.drop_last(), w, role) + if fills_role(w, team.last(), role) {
            1nat
        } else {
            0nat
        }
    }
}

/// `team` has too few or too many players of the requirement's role.
pub open spec fn requirement_fails(
    req: RoleRequirement,
    team: Seq<PlayerId>,
    w: Map<u64, PlayerProfile>,
) -> bool {
    let count = role_count(team, w, req.role@);
    count < req.min_count || (req.max_count matches Some(m) && count > m)
}

/// `team` meets every requirement of `reqs`.
pub open spec fn meets_all(
    reqs: Seq<RoleRequirement>,
    team: Seq<PlayerId>,
    w: Map<u64, PlayerProfile>,
) -> bool {
    forall|i: int| 0 <= i < reqs.len() ==> !requirement_fails(#[trigger] reqs[i], team, w)
}

/// Counts the players of `team` who fill `role`.
pub fn count_role(team: &[PlayerId], world: &World, role: &String) -> (n: usize)
    ensures
        n == role_count(team@, world@, role@),
{
    let mut n: usize = 0;
    let mut i: usize = 0;
    while i < team.len()
        invariant
            i <= team@.len(),
            n == role_count(team@.subrange(0, i as int), world@, role@),
            n <= i,
        decreases team@.len() - i,
    {
        let ghost prefix = team@.subrange(0, i as int);
        assert(team@.subrange(0, i + 1).drop_last() =~= prefix);
        let fills = match world.profile(team[i]) {
            Some(profile) => match &profile.role {
                Some(r) => *r == *role,
                None => false,
            },
            None => false,
        };
        if fills {
            n = n + 1;
        }
        i = i + 1;
    }
    assert(team@.subrange(0, team@.len() as int) =~= team@);
    n
}

/// A constraint violation with a code and message.
#[derive(Debug, Clone)]
pub struct ConstraintViolation {
    pub code: String,
    pub message: String,
}

impl ConstraintViolation {
    /// `[code] message`.
    pub fn to_string(&self) -> (s: String)
        ensures
            s@ == "["@ + self.code@ + "] "@ + self.message@,
    {
        let mut s = String::new();
        push_str(&mut s, "[");
        push_str(&mut s, self.code.as_str());
        push_str(&mut s, "] ");
        push_str(&mut s, self.message.as_str());
        proof {
            reveal_strlit("[");
            reveal_strlit("] ");
        }
        s
    }
}

/// The message of a team of the wrong size.
pub open spec fn team_size_message(actual: nat, expected: nat) -> Seq<char> {
    "team has "@ + decimal(actual) + " players, expected "@ + decimal(expected)
}

/// The code and message of the first way in which `team` fails `req`.
pub open spec fn requirement_violation(
    req: RoleRequirement,
    team: Seq<PlayerId>,
    w: Map<u64, PlayerProfile>,
) -> (Seq<char>, Seq<char>) {
    let count = role_count(team, w, req.role@);
    if count < req.min_count {
        (
            "ROLE_MIN"@,
            "role '"@ + req.role@ + "' has "@ + decimal(count) + " players, minimum "@ + decimal(
                req.min_count as nat,
            ),
        )
    } else {
        (
            "ROLE_MAX"@,
            "role '"@ + req.role@ + "' has "@ + decimal(count) + " players, maximum "@ + decimal(
                req.max_count->Some_0 as nat,
            ),
        )
    }
}

/// Team size and role constraint.
#[derive(Debug, Clone)]
pub struct TeamConstraint {
    pub required_roles: Vec<RoleRequirement>,
    pub team_size: usize,
    pub asymmetric: bool,
}

impl TeamConstraint {
    /// Checks `team` against the size, then against each role requirement
    /// in order; reports the first failure.
    pub fn validate(&self, team: &[PlayerId], world: &World) -> (res: Result<(), ConstraintViolation>)
        ensures
            team@.len() != self.team_size ==> res is Err && res->Err_0.code@ == "TEAM_SIZE"@
                && res->Err_0.message@ == team_size_message(team@.len(), self.team_size as nat),
            team@.len() == self.team_size ==> (res is Ok <==> meets_all(
                self.required_roles@,
                team@,
                world@,
            )),
            team@.len() == self.team_size && res is Err ==> exists|i: int|
                0 <= i < self.required_roles@.len() && requirement_fails(
                    self.required_roles@[i],
                    team@,
                    world@,
                ) && (forall|j: int|
                    0 <= j < i ==> !requirement_fails(
                        #[trigger] self.required_roles@[j],
                        team@,
                        world@,
                    )) && requirement_violation(self.required_roles@[i], team@, world@) == (
                    res->Err_0.code@,
                    res->Err_0.message@,
                ),
    {
        if team.len() != self.team_size {
            let mut code = String::new();
            push_str(&mut code, "TEAM_SIZE");
            let mut message = String::new();
            push_str(&mut message, "team has ");
            push_decimal(&mut message, team.len() as u64);
            push_str(&mut message, " players, expected ");
            push_decimal(&mut message, self.team_size as u64);
            proof {
                reveal_strlit("TEAM_SIZE");
            }
            return Err(ConstraintViolation { code, message });
        }
        let mut k: usize = 0;
        while k < self.required_roles.len()
            invariant
                k <= self.required_roles@.len(),
                team@.len() == self.team_size,
                forall|j: int|
                    0 <= j < k ==> !requirement_fails(#[trigger] self.required_roles@[j], team@, world@),
            decreases self.required_roles@.len() - k,
        {
            let req = &self.required_roles[k];
            let count = count_role(team, world, &req.role);
            if count < req.min_count {
                let mut code = String::new();
                push_str(&mut code, "ROLE_MIN");
                let mut message = String::new();
                push_str(&mut message, "role '");
                push_str(&mut message, req.role.as_str());
                push_str(&mut message, "' has ");
                push_decimal(&mut message, count as u64);
                push_str(&mut message, " players, minimum ");
                push_decimal(&mut message, req.min_count as u64);
                proof {
                    reveal_strlit("ROLE_MIN");
                }
                return Err(ConstraintViolation { code, message });
            }
            if let Some(max) = req.max_count {
                if count > max {
                    let mut code = String::new();
                    push_str(&mut code, "ROLE_MAX");
                    let mut message = String::new();
                    push_str(&mut message, "role '");
                    push_str(&mut message, req.role.as_str());
                    push_str(&mut message, "' has ");
                    push_decimal(&mut message, count as u64);
                    push_str(&mut message, " players, maximum ");
                    push_decimal(&mut message, max as u64);
                    proof {
                        reveal_strlit("ROLE_MAX");
                    }
                    return Err(ConstraintViolation { code, message });
                }
            }
            k = k + 1;
        }
        Ok(())
    }
}

} // verus!

verus! {

/// Both teams, team A first.
pub fn all_players(proposed: &ProposedMatch) -> (all: Vec<PlayerId>)
    ensures
        all@ == proposed.team_a@ + proposed.team_b@,
{
    let mut all: Vec<PlayerId> = Vec::new();
    let mut i: usize = 0;
    while i < proposed.team_a.len()
        invariant
            i <= proposed.team_a@.len(),
            all@ == proposed.team_a@.subrange(0, i as int),
        decreases proposed.team_a@.len() - i,
    {
        all.push(proposed.team_a[i]);
        i = i + 1;
        assert(all@ =~= proposed.team_a@.subrange(0, i as int));
    }
    let mut j: usize = 0;
    while j < proposed.team_b.len()
        invariant
            j <= proposed.team_b@.len(),
            all@ == proposed.team_a@ + proposed.team_b@.subrange(0, j as int),
        decreases proposed.team_b@.len() - j,
    {
        all.push(proposed.team_b[j]);
        j = j + 1;
        assert(all@ =~= proposed.team_a@ + proposed.team_b@.subrange(0, j as int));
    }
    assert(proposed.team_a@ =~= proposed.team_a@.subrange(0, proposed.team_a@.len() as int));
    assert(proposed.team_b@.subrange(0, proposed.team_b@.len() as int) =~= proposed.team_b@);
    all
}

/// A requirement that every proposed match must meet.
pub trait HardConstraint {
    /// Whether `proposed` meets the requirement in `world`.
    fn is_satisfied(&self, proposed: &ProposedMatch, world: &World) -> bool;

    /// The requirement in words.
    fn description(&self) -> String;
}

/// A requirement on proposed matches, for callers to implement.
pub trait Constraint {
    /// Whether `proposed` meets the requirement in `world`.
    fn is_satisfied(&self, proposed: &ProposedMatch, world: &World) -> bool;

    /// The requirement in words.
    fn description(&self) -> String;
}

/// Team size hard constraint.
#[derive(Debug, Clone, Copy)]
pub struct TeamSizeConstraint {
    pub size_a: usize,
    pub size_b: usize,
}

impl HardConstraint for TeamSizeConstraint {
    /// Team A has `size_a` players and team B has `size_b`.
    fn is_satisfied(&self, proposed: &ProposedMatch, _world: &World) -> (b: bool)
        ensures
            b == (proposed.team_a@.len() == self.size_a && proposed.team_b@.len() == self.size_b),
    {
        proposed.team_a.len() == self.size_a && proposed.team_b.len() == self.size_b
    }

    /// `team sizes must be AvB`.
    fn description(&self) -> (s: String)
        ensures
            s@ == "team sizes must be "@ + decimal(self.size_a as nat) + "v"@ + decimal(
                self.size_b as nat,
            ),
    {
        let mut s = String::new();
        push_str(&mut s, "team sizes must be ");
        push_decimal(&mut s, self.size_a as u64);
        push_str(&mut s, "v");
        push_decimal(&mut s, self.size_b as u64);
        s
    }
}

/// Every party that has a player in the match has all its known members in
/// the match.
pub open spec fn parties_whole(all: Seq<PlayerId>, w: Map<u64, PlayerProfile>) -> bool {
    forall|i: int, k: u64|
        0 <= i < all.len() && w.contains_key(#[trigger] all[i].0) && w[all[i].0].party_id is Some
            && #[trigger] w.contains_key(k) && w[k].party_id == w[all[i].0].party_id ==> all.contains(
            PlayerId(k),
        )
}

/// Party integrity hard constraint: all party members in the same match.
#[derive(Debug, Clone, Copy)]
pub struct PartyIntegrityConstraint;

impl HardConstraint for PartyIntegrityConstraint {
    /// For every player of the match who belongs to a party, every known
    /// member of that party is in the match.
    fn is_satisfied(&self, proposed: &ProposedMatch, world: &World) -> (b: bool)
        ensures
            b == parties_whole(proposed.team_a@ + proposed.team_b@, world@),
    {
        let all = all_players(proposed);
        let mut i: usize = 0;
        while i < all.len()
            invariant
                i <= all@.len(),
                all@ == proposed.team_a@ + proposed.team_b@,
                forall|p: int, k: u64|
                    0 <= p < i && world@.contains_key(#[trigger] all@[p].0) && world@[all@[p].0].party_id
                        is Some && #[trigger] world@.contains_key(k) && world@[k].party_id
                        == world@[all@[p].0].party_id ==> all@.contains(PlayerId(k)),
            decreases all@.len() - i,
        {
            let pid = all[i];
            if let Some(profile) = world.profile(pid) {
                if let Some(party_id) = profile.party_id {
                    let members = world.party_members(party_id);
                    let mut j: usize = 0;
                    while j < members.len()
                        invariant
                            j <= members@.len(),
                            i < all@.len(),
                            all@ == proposed.team_a@ + proposed.team_b@,
                            world@.contains_key(all@[i as int].0),
                            world@[all@[i as int].0].party_id == Some(party_id),
                            forall|q: int|
                                0 <= q < members@.len() ==> world@.contains_key(
                                    #[trigger] members@[q].0,
                                ) && world@[members@[q].0].party_id == Some(party_id),
                            forall|q: int| 0 <= q < j ==> all@.contains(#[trigger] members@[q]),
                        decreases members@.len() - j,
                    {
                        if !contains_player(&all, members[j]) {
                            proof {
                                let k = members@[j as int].0;
                                assert(world@.contains_key(members@[j as int].0));
                                assert(members@[j as int] == PlayerId(k));
                                assert(!all@.contains(PlayerId(k)));
                                assert(world@[k].party_id == world@[all@[i as int].0].party_id);
                                assert(!parties_whole(all@, world@));
                            }
                            return false;
                        }
                        j = j + 1;
                    }
                    proof {
                        assert forall|k: u64|
                            #[trigger] world@.contains_key(k) && world@[k].party_id == Some(
                                party_id,
                            ) implies all@.contains(PlayerId(k)) by {
                            assert(members@.contains(PlayerId(k)));
                            let q = choose|q: int| 0 <= q < members@.len() && members@[q] == PlayerId(k);
                            assert(all@.contains(members@[q]));
                        }
                    }
                }
            }
            i = i + 1;
        }
        true
    }

    /// What the constraint demands.
    fn description(&self) -> (s: String)
        ensures
            s@ == "all party members must be in the same match"@,
    {
        let mut s = String::new();
        push_str(&mut s, "all party members must be in the same match");
        proof {
            reveal_strlit("all party members must be in the same match");
        }
        s
    }
}

/// Role requirement hard constraint, counted over both teams together.
#[derive(Debug, Clone)]
pub struct RoleConstraint {
    pub requirements: Vec<RoleRequirement>,
}

/// One requirement as `role:min` or `role:min-max`.
pub open spec fn requirement_text(req: RoleRequirement) -> Seq<char> {
    match req.max_count {
        Some(m) => req.role@ + ":"@ + decimal(req.min_count as nat) + "-"@ + decimal(m as nat),
        None => req.role@ + ":"@ + decimal(req.min_count as nat),
    }
}

/// The texts of `reqs`, joined by `", "`.
pub open spec fn requirements_text(reqs: Seq<RoleRequirement>) -> Seq<char>
    decreases reqs.len(),
{
    if reqs.len() == 0 {
        Seq::empty()
    } else if reqs.len() == 1 {
        requirement_text(reqs[0])
    } else {
        requirements_text(reqs.drop_last()) + ", "@ + requirement_text(reqs.last())
    }
}

impl HardConstraint for RoleConstraint {
    /// The two teams together meet every requirement.
    fn is_satisfied(&self, proposed: &ProposedMatch, world: &World) -> (b: bool)
        ensures
            b == meets_all(self.requirements@, proposed.team_a@ + proposed.team_b@, world@),
    {
        let all = all_players(proposed);
        let mut k: usize = 0;
        while k < self.requirements.len()
            invariant
                k <= self.requirements@.len(),
                all@ == proposed.team_a@ + proposed.team_b@,
                forall|j: int|
                    0 <= j < k ==> !requirement_fails(#[trigger] self.requirements@[j], all@, world@),
            decreases self.requirements@.len() - k,
        {
            let req = &self.requirements[k];
            let count = count_role(&all, world, &req.role);
            if count < req.min_count {
                return false;
            }
            if let Some(max) = req.max_count {
                if count > max {
                    return false;
                }
            }
            k = k + 1;
        }
        true
    }

    /// `roles: ` followed by each requirement as `role:min` or
    /// `role:min-max`, separated by `", "`.
    fn description(&self) -> (s: String)
        ensures
            s@ == "roles: "@ + requirements_text(self.requirements@),
    {
        let mut s = String::new();
        push_str(&mut s, "roles: ");
        let mut k: usize = 0;
        while k < self.requirements.len()
            invariant
                k <= self.requirements@.len(),
                s@ == "roles: "@ + requirements_text(self.requirements@.subrange(0, k as int)),
            decreases self.requirements@.len() - k,
        {
            let ghost prefix = self.requirements@.subrange(0, k as int);
            let ghost next = self.requirements@.subrange(0, k + 1);
            assert(next.drop_last() =~= prefix);
            if k > 0 {
                push_str(&mut s, ", ");
            }
            let req = &self.requirements[k];
            push_str(&mut s, req.role.as_str());
            push_str(&mut s, ":");
            push_decimal(&mut s, req.min_count as u64);
            if let Some(max) = req.max_count {
                push_str(&mut s, "-");
                push_decimal(&mut s, max as u64);
            }
            k = k + 1;
            proof {
                if k == 1 {
                    assert(prefix =~= Seq::<RoleRequirement>::empty());
                }
            }
            assert(s@ =~= "roles: "@ + requirements_text(next));
        }
        assert(self.requirements@.subrange(0, self.requirements@.len() as int) =~= self.requirements@);
        s
    }
}

/// `(a, b)` or `(b, a)` is one of the allowed pairs.
pub open spec fn pair_allowed(pairs: Seq<(Region, Region)>, ra: Region, rb: Region) -> bool {
    exists|i: int|
        0 <= i < pairs.len() && ((pairs[i].0 == ra && pairs[i].1 == rb) || (pairs[i].0 == rb
            && pairs[i].1 == ra))
}

/// Allowed region pairs are unordered: two regions may meet exactly when
/// either order of them is listed.
pub proof fn lemma_pair_allowed_listed(pairs: Seq<(Region, Region)>, x: Region, y: Region)
    ensures
        pair_allowed(pairs, x, y) <==> (pairs.contains((x, y)) || pairs.contains((y, x))),
        pair_allowed(pairs, x, y) == pair_allowed(pairs, y, x),
{
    if pairs.contains((x, y)) {
        let i = choose|i: int| 0 <= i < pairs.len() && pairs[i] == (x, y);
        assert(pairs[i].0 == x && pairs[i].1 == y);
    }
    if pairs.contains((y, x)) {
        let i = choose|i: int| 0 <= i < pairs.len() && pairs[i] == (y, x);
        assert(pairs[i].0 == y && pairs[i].1 == x);
    }
    if pair_allowed(pairs, x, y) {
        let i = choose|i: int|
            0 <= i < pairs.len() && ((pairs[i].0 == x && pairs[i].1 == y) || (pairs[i].0 == y && pairs[i].1 == x));
        if pairs[i].0 == x && pairs[i].1 == y {
            assert(pairs[i] == (x, y));
        } else {
            assert(pairs[i] == (y, x));
        }
    }
}

/// The region verdict does not depend on which team is called A: swapping
/// the teams gives the same answer, and a match of one known player per
/// team is allowed exactly when the pair of their regions, in either order,
/// is listed.
pub proof fn lemma_regions_symmetric(
    pairs: Seq<(Region, Region)>,
    team_a: Seq<PlayerId>,
    team_b: Seq<PlayerId>,
    w: Map<u64, PlayerProfile>,
)
    ensures
        regions_allowed(pairs, team_a, team_b, w) == regions_allowed(pairs, team_b, team_a, w),
        team_a.len() == 1 && team_b.len() == 1 && w.contains_key(team_a[0].0) && w.contains_key(team_b[0].0)
            ==> (regions_allowed(pairs, team_a, team_b, w) <==> (pairs.contains(
            (w[team_a[0].0].region, w[team_b[0].0].region),
        ) || pairs.contains((w[team_b[0].0].region, w[team_a[0].0].region)))),
{
    if regions_allowed(pairs, team_a, team_b, w) {
        assert forall|i: int, j: int|
            0 <= i < team_b.len() && 0 <= j < team_a.len() && w.contains_key(#[trigger] team_b[i].0)
                && w.contains_key(#[trigger] team_a[j].0) implies pair_allowed(
            pairs,
            w[team_b[i].0].region,
            w[team_a[j].0].region,
        ) by {
            lemma_pair_allowed_listed(pairs, w[team_a[j].0].region, w[team_b[i].0].region);
        }
    }
    if regions_allowed(pairs, team_b, team_a, w) {
        assert forall|i: int, j: int|
            0 <= i < team_a.len() && 0 <= j < team_b.len() && w.contains_key(#[trigger] team_a[i].0)
                && w.contains_key(#[trigger] team_b[j].0) implies pair_allowed(
            pairs,
            w[team_a[i].0].region,
            w[team_b[j].0].region,
        ) by {
            lemma_pair_allowed_listed(pairs, w[team_b[j].0].region, w[team_a[i].0].region);
        }
    }
    if team_a.len() == 1 && team_b.len() == 1 && w.contains_key(team_a[0].0) && w.contains_key(team_b[0].0) {
        lemma_pair_allowed_listed(pairs, w[team_a[0].0].region, w[team_b[0].0].region);
    }
}

/// Every pair of known players on opposite teams comes from an allowed
/// region pair.
pub open spec fn regions_allowed(
    pairs: Seq<(Region, Region)>,
    team_a: Seq<PlayerId>,
    team_b: Seq<PlayerId>,
    w: Map<u64, PlayerProfile>,
) -> bool {
    forall|i: int, j: int|
        0 <= i < team_a.len() && 0 <= j < team_b.len() && w.contains_key(#[trigger] team_a[i].0)
            && w.contains_key(#[trigger] team_b[j].0) ==> pair_allowed(
            pairs,
            w[team_a[i].0].region,
            w[team_b[j].0].region,
        )
}

/// Region constraint: only allow matches within allowed region pairs.
#[derive(Debug, Clone)]
pub struct RegionConstraint {
    pub allowed_pairs: Vec<(Region, Region)>,
}

impl RegionConstraint {
    fn allows(&self, ra: Region, rb: Region) -> (b: bool)
        ensures
            b == pair_allowed(self.allowed_pairs@, ra, rb),
            self.allowed_pairs@.contains((ra, rb)) ==> b,
            self.allowed_pairs@.contains((rb, ra)) ==> b,
            b ==> self.allowed_pairs@.contains((ra, rb)) || self.allowed_pairs@.contains((rb, ra)),
    {
        proof {
            lemma_pair_allowed_listed(self.allowed_pairs@, ra, rb);
        }
        let mut i: usize = 0;
        while i < self.allowed_pairs.len()
            invariant
                i <= self.allowed_pairs@.len(),
                forall|j: int|
                    0 <= j < i ==> !((self.allowed_pairs@[j].0 == ra && self.allowed_pairs@[j].1 == rb)
                        || (self.allowed_pairs@[j].0 == rb && self.allowed_pairs@[j].1 == ra)),
            decreases self.allowed_pairs@.len() - i,
        {
            let (a, b) = self.allowed_pairs[i];
            if (a == ra && b == rb) || (a == rb && b == ra) {
                return true;
            }
            i = i + 1;
        }
        false
    }
}

impl HardConstraint for RegionConstraint {
    /// Every player of team A and every player of team B, both known, come
    /// from an allowed pair of regions.
    fn is_satisfied(&self, proposed: &ProposedMatch, world: &World) -> (b: bool)
        ensures
            b == regions_allowed(self.allowed_pairs@, proposed.team_a@, proposed.team_b@, world@),
    {
        let mut i: usize = 0;
        while i < proposed.team_a.len()
            invariant
                i <= proposed.team_a@.len(),
                forall|p: int, q: int|
                    0 <= p < i && 0 <= q < proposed.team_b@.len() && world@.contains_key(
                        #[trigger] proposed.team_a@[p].0,
                    ) && world@.contains_key(#[trigger] proposed.team_b@[q].0) ==> pair_allowed(
                        self.allowed_pairs@,
                        world@[proposed.team_a@[p].0].region,
                        world@[proposed.team_b@[q].0].region,
                    ),
            decreases proposed.team_a@.len() - i,
        {
            if let Some(pa) = world.profile(proposed.team_a[i]) {
                let mut j: usize = 0;
                while j < proposed.team_b.len()
                    invariant
                        j <= proposed.team_b@.len(),
                        i < proposed.team_a@.len(),
                        world@.contains_key(proposed.team_a@[i as int].0),
                        *pa == world@[proposed.team_a@[i as int].0],
                        forall|p: int, q: int|
                            0 <= p < i && 0 <= q < proposed.team_b@.len() && world@.contains_key(
                                #[trigger] proposed.team_a@[p].0,
                            ) && world@.contains_key(#[trigger] proposed.team_b@[q].0)
                                ==> pair_allowed(
                                self.allowed_pairs@,
                                world@[proposed.team_a@[p].0].region,
                                world@[proposed.team_b@[q].0].region,
                            ),
                        forall|q: int|
                            0 <= q < j && world@.contains_key(#[trigger] proposed.team_b@[q].0)
                                ==> pair_allowed(
                                self.allowed_pairs@,
                                world@[proposed.team_a@[i as int].0].region,
                                world@[proposed.team_b@[q].0].region,
                            ),
                    decreases proposed.team_b@.len() - j,
                {
                    if let Some(pb) = world.profile(proposed.team_b[j]) {
                        if !self.allows(pa.region, pb.region) {
                            return false;
                        }
                    }
                    j = j + 1;
                }
            }
            i = i + 1;
        }
        true
    }

    /// `N allowed region pairs`.
    fn description(&self) -> (s: String)
        ensures
            s@ == decimal(self.allowed_pairs@.len()) + " allowed region pairs"@,
    {
        let mut s = String::new();
        push_decimal(&mut s, self.allowed_pairs.len() as u64);
        push_str(&mut s, " allowed region pairs");
        s
    }
}

} // verus!

verus! {

/// One of the shipped hard constraints.
#[derive(Debug, Clone)]
pub enum MatchConstraint {
    TeamSize(TeamSizeConstraint),
    PartyIntegrity(PartyIntegrityConstraint),
    Role(RoleConstraint),
    Region(RegionConstraint),
}

/// The teams `team_a` and `team_b` satisfy `c` in world `w`.
pub open spec fn satisfies(
    c: MatchConstraint,
    team_a: Seq<PlayerId>,
    team_b: Seq<PlayerId>,
    w: Map<u64, PlayerProfile>,
) -> bool {
    match c {
        MatchConstraint::TeamSize(t) => team_a.len() == t.size_a && team_b.len() == t.size_b,
        MatchConstraint::PartyIntegrity(_) => parties_whole(team_a + team_b, w),
        MatchConstraint::Role(r) => meets_all(r.requirements@, team_a + team_b, w),
        MatchConstraint::Region(r) => regions_allowed(r.allowed_pairs@, team_a, team_b, w),
    }
}

/// The teams satisfy every constraint of `cs`.
pub open spec fn satisfies_all(
    cs: Seq<MatchConstraint>,
    team_a: Seq<PlayerId>,
    team_b: Seq<PlayerId>,
    w: Map<u64, PlayerProfile>,
) -> bool {
    forall|i: int| 0 <= i < cs.len() ==> satisfies(#[trigger] cs[i], team_a, team_b, w)
}

impl HardConstraint for MatchConstraint {
    /// Whether `proposed` satisfies the constraint.
    fn is_satisfied(&self, proposed: &ProposedMatch, world: &World) -> (b: bool)
        ensures
            b == satisfies(*self, proposed.team_a@, proposed.team_b@, world@),
    {
        match self {
            MatchConstraint::TeamSize(t) => t.is_satisfied(proposed, world),
            MatchConstraint::PartyIntegrity(p) => p.is_satisfied(proposed, world),
            MatchConstraint::Role(r) => r.is_satisfied(proposed, world),
            MatchConstraint::Region(r) => r.is_satisfied(proposed, world),
        }
    }

    /// The description of the constraint it holds.
    fn description(&self) -> (s: String)
        ensures
            s@ == match *self {
                MatchConstraint::TeamSize(t) => "team sizes must be "@ + decimal(t.size_a as nat) + "v"@
                    + decimal(t.size_b as nat),
                MatchConstraint::PartyIntegrity(_) => "all party members must be in the same match"@,
                MatchConstraint::Role(r) => "roles: "@ + requirements_text(r.requirements@),
                MatchConstraint::Region(r) => decimal(r.allowed_pairs@.len()) + " allowed region pairs"@,
            },
    {
        match self {
            MatchConstraint::TeamSize(t) => t.description(),
            MatchConstraint::PartyIntegrity(p) => p.description(),
            MatchConstraint::Role(r) => r.description(),
            MatchConstraint::Region(r) => r.description(),
        }
    }
}

/// Whether `proposed` satisfies every constraint of `constraints`.
pub fn satisfies_constraints(
    constraints: &[MatchConstraint],
    proposed: &ProposedMatch,
    world: &World,
) -> (b: bool)
    ensures
        b == satisfies_all(constraints@, proposed.team_a@, proposed.team_b@, world@),
{
    let mut i: usize = 0;
    while i < constraints.len()
        invariant
            i <= constraints@.len(),
            forall|j: int|
                0 <= j < i ==> satisfies(
                    #[trigger] constraints@[j],
                    proposed.team_a@,
                    proposed.team_b@,
                    world@,
                ),
        decreases constraints@.len() - i,
    {
        if !constraints[i].is_satisfied(proposed, world) {
            return false;
        }
        i = i + 1;
    }
    true
}

} // verus!
