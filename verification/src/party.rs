//! Parties: the unit that enters the queue and is matched. A solo player is
//! a party of one.
use vstd::prelude::*;
use std::collections::HashMap;
use vstd::std_specs::iter::IteratorSpec;
use crate::ids::{PlayerId, SimTime};
use crate::text::{decimal, push_decimal, push_str};

verus! {

broadcast use vstd::std_specs::hash::group_hash_axioms;

/// A party in the matchmaking queue.
#[derive(Debug, Clone)]
pub struct Party {
    /// Unique party identifier.
    pub id: u64,
    /// Members of the party.
    pub members: Vec<PlayerId>,
    /// When the party was formed.
    pub created_at: SimTime,
    /// Maximum party size (`None`: no limit beyond formation).
    pub party_size_limit: Option<usize>,
}

/// The message of a party refused for having no member.
pub open spec fn empty_party_message() -> Seq<char> {
    "party must have at least one member"@
}

/// The message of a party refused for having more members than its limit.
pub open spec fn oversized_party_message(size: nat, limit: nat) -> Seq<char> {
    "party has "@ + decimal(size) + " members, exceeding limit of "@ + decimal(limit)
}

/// `size` is above the limit, when there is one.
pub open spec fn exceeds_limit(size: nat, limit: Option<usize>) -> bool {
    match limit {
        Some(l) => size > l,
        None => false,
    }
}

impl Party {
    /// A party holding only `player_id`, identified by the player's id.
    pub fn solo(player_id: PlayerId, created_at: SimTime) -> (p: Party)
        ensures
            p.id == player_id.0,
            p.members@ == seq![player_id],
            p.created_at == created_at,
            p.party_size_limit == None::<usize>,
    {
        Party { id: player_id.0, members: vec![player_id], created_at, party_size_limit: None }
    }

    /// A party of `members`; refused when it has no member or more members
    /// than `party_size_limit`.
    pub fn new(
        id: u64,
        members: Vec<PlayerId>,
        created_at: SimTime,
        party_size_limit: Option<usize>,
    ) -> (res: Result<Party, String>)
        ensures
            members@.len() == 0 ==> res is Err && res->Err_0@ == empty_party_message(),
            members@.len() > 0 && exceeds_limit(members@.len(), party_size_limit) ==> res is Err
                && res->Err_0@ == oversized_party_message(
                members@.len(),
                party_size_limit->Some_0 as nat,
            ),
            members@.len() > 0 && !exceeds_limit(members@.len(), party_size_limit) ==> res is Ok
                && res->Ok_0.id == id && res->Ok_0.members@ == members@ && res->Ok_0.created_at
                == created_at && res->Ok_0.party_size_limit == party_size_limit,
    {
        if members.len() == 0 {
            let mut msg = String::new();
            push_str(&mut msg, "party must have at least one member");
            proof { reveal_strlit("party must have at least one member"); }
            return Err(msg);
        }
        if let Some(limit) = party_size_limit {
            if members.len() > limit {
                let mut msg = String::new();
                push_str(&mut msg, "party has ");
                push_decimal(&mut msg, members.len() as u64);
                push_str(&mut msg, " members, exceeding limit of ");
                push_decimal(&mut msg, limit as u64);
                return Err(msg);
            }
        }
        Ok(Party { id, members, created_at, party_size_limit })
    }

    /// Number of members.
    pub fn size(&self) -> (n: usize)
        ensures
            n == self.members@.len(),
    {
        self.members.len()
    }

    /// Whether `player_id` is a member.
    pub fn contains(&self, player_id: PlayerId) -> (b: bool)
        ensures
            b == self.members@.contains(player_id),
    {
        contains_player(&self.members, player_id)
    }

    /// Whether the party has exactly one member.
    pub fn is_solo(&self) -> (b: bool)
        ensures
            b == (self.members@.len() == 1),
    {
        self.members.len() == 1
    }
}

/// Whether `ids` holds `pid`.
pub fn contains_player(ids: &[PlayerId], pid: PlayerId) -> (b: bool)
    ensures
        b == ids@.contains(pid),
{
    let mut i: usize = 0;
    while i < ids.len()
        invariant
            i <= ids@.len(),
            forall|j: int| 0 <= j < i ==> ids@[j] != pid,
        decreases ids@.len() - i,
    {
        if ids[i] == pid {
            assert(ids@[i as int] == pid);
            return true;
        }
        i = i + 1;
    }
    false
}

/// The active parties, by identifier.
#[derive(Debug, Default)]
pub struct PartyRegistry {
    parties: HashMap<u64, Party>,
    next_id: u64,
}

impl View for PartyRegistry {
    type V = Map<u64, Party>;

    closed spec fn view(&self) -> Map<u64, Party> {
        self.parties@
    }
}

impl PartyRegistry {
    /// The identifier that `next_id` hands out next.
    pub closed spec fn next_id_spec(&self) -> u64 {
        self.next_id
    }

    /// An empty registry whose identifiers start at zero.
    pub fn new() -> (r: PartyRegistry)
        ensures
            r@ == Map::<u64, Party>::empty(),
            r.next_id_spec() == 0,
    {
        PartyRegistry { parties: HashMap::new(), next_id: 0 }
    }

    /// Registers `party` under its own identifier (replacing any party
    /// registered there) and returns that identifier.
    pub fn register(&mut self, party: Party) -> (id: u64)
        ensures
            id == party.id,
            final(self)@ == old(self)@.insert(party.id, party),
            final(self).next_id_spec() == old(self).next_id_spec(),
    {
        let id = party.id;
        self.parties.insert(id, party);
        id
    }

    /// The party registered under `party_id`.
    pub fn get(&self, party_id: u64) -> (res: Option<&Party>)
        ensures
            self@.contains_key(party_id) ==> res == Some(&self@[party_id]),
            !self@.contains_key(party_id) ==> res == None::<&Party>,
    {
        self.parties.get(&party_id)
    }

    /// The party registered under `party_id`, to change in place: what it
    /// holds when the borrow ends is what the registry holds under that
    /// identifier. Nothing when no party is registered there.
    pub fn get_mut(&mut self, party_id: u64) -> (res: Option<&mut Party>)
        ensures
            old(self)@.contains_key(party_id) ==> res.is_some() && *res.unwrap() == old(self)@[party_id]
                && final(self)@ == old(self)@.insert(party_id, *final(res.unwrap())),
            !old(self)@.contains_key(party_id) ==> res.is_none() && final(self)@ == old(self)@,
            final(self).next_id_spec() == old(self).next_id_spec(),
    {
        match self.parties.entry(party_id) {
            std::collections::hash_map::Entry::Occupied(o) => Some(o.into_mut()),
            std::collections::hash_map::Entry::Vacant(_) => {
                proof {
                    assert(old(self)@.remove(party_id) =~= old(self)@);
                }
                None
            },
        }
    }

    /// Takes out the party registered under `party_id`.
    pub fn remove(&mut self, party_id: u64) -> (res: Option<Party>)
        ensures
            final(self)@ == old(self)@.remove(party_id),
            final(self).next_id_spec() == old(self).next_id_spec(),
            old(self)@.contains_key(party_id) ==> res == Some(old(self)@[party_id]),
            !old(self)@.contains_key(party_id) ==> res == None::<Party>,
    {
        self.parties.remove(&party_id)
    }

    /// Number of registered parties.
    pub fn len(&self) -> (n: usize)
        ensures
            n == self@.dom().len(),
    {
        self.parties.len()
    }

    /// Whether no party is registered.
    pub fn is_empty(&self) -> (b: bool)
        ensures
            b == (self@.dom().len() == 0),
    {
        self.parties.len() == 0
    }

    /// The registered parties, in no particular order: each registered
    /// party appears exactly once.
    pub fn parties(&self) -> (res: Vec<&Party>)
        ensures
            res@.len() == self@.dom().len(),
            res@.map_values(|p: &Party| *p).to_set() == self@.values(),
    {
        let ghost all = vstd::std_specs::hash::spec_values_iter(&self.parties).remaining();
        let mut out: Vec<&Party> = Vec::new();
        for p in it: self.parties.values()
            invariant
                it.seq() == all,
                out@.len() == it.index(),
                forall|i: int| 0 <= i < it.index() ==> out@[i] == it.seq()[i],
        {
            out.push(p);
        }
        proof {
            assert(out@ =~= all);
            assert(out@.map_values(|p: &Party| *p) =~= all.unref());
        }
        out
    }

    /// Hands out a fresh identifier: each call returns one more than the
    /// previous call.
    pub fn next_id(&mut self) -> (id: u64)
        requires
            old(self).next_id_spec() < u64::MAX,
        ensures
            id == old(self).next_id_spec(),
            final(self).next_id_spec() == old(self).next_id_spec() + 1,
            final(self)@ == old(self)@,
    {
        let id = self.next_id;
        self.next_id = self.next_id + 1;
        id
    }
}

} // verus!

verus! {

/// `pid` plays on one of the two teams.
pub open spec fn in_match(team_a: Seq<PlayerId>, team_b: Seq<PlayerId>, pid: PlayerId) -> bool {
    team_a.contains(pid) || team_b.contains(pid)
}

/// Some but not all members of `p` play in the match.
pub open spec fn splits(p: Party, team_a: Seq<PlayerId>, team_b: Seq<PlayerId>) -> bool {
    &&& exists|i: int| 0 <= i < p.members@.len() && in_match(team_a, team_b, p.members@[i])
    &&& exists|j: int| 0 <= j < p.members@.len() && !in_match(team_a, team_b, p.members@[j])
}

/// The message of a match that splits party `id`.
pub open spec fn integrity_message(id: nat) -> Seq<char> {
    "party "@ + decimal(id) + " has members not in the match (party integrity violated)"@
}

fn party_splits(p: &Party, team_a: &[PlayerId], team_b: &[PlayerId]) -> (b: bool)
    ensures
        b == splits(*p, team_a@, team_b@),
{
    let mut any_in = false;
    let mut any_out = false;
    let mut i: usize = 0;
    while i < p.members.len()
        invariant
            i <= p.members@.len(),
            any_in == exists|k: int| 0 <= k < i && in_match(team_a@, team_b@, p.members@[k]),
            any_out == exists|k: int| 0 <= k < i && !in_match(team_a@, team_b@, p.members@[k]),
        decreases p.members@.len() - i,
    {
        let m = p.members[i];
        if contains_player(team_a, m) || contains_player(team_b, m) {
            any_in = true;
        } else {
            any_out = true;
        }
        i = i + 1;
    }
    any_in && any_out
}

/// Checks that no registered party is split by the match: every party has
/// either all or none of its members on the two teams.
pub fn check_party_integrity(
    team_a: &[PlayerId],
    team_b: &[PlayerId],
    party_registry: &PartyRegistry,
) -> (res: Result<(), String>)
    ensures
        res is Ok <==> forall|k: u64|
            #[trigger] party_registry@.contains_key(k) ==> !splits(
                party_registry@[k],
                team_a@,
                team_b@,
            ),
        res matches Err(msg) ==> exists|k: u64|
            #[trigger] party_registry@.contains_key(k) && splits(party_registry@[k], team_a@, team_b@)
                && msg@ == integrity_message(party_registry@[k].id as nat),
{
    let ghost m = party_registry@;
    let ghost all = vstd::std_specs::hash::spec_values_iter(&party_registry.parties).remaining();
    proof {
        assert(all.unref().to_set() == m.values());
    }
    for party in it: party_registry.parties.values()
        invariant
            it.seq() == all,
            all.unref().to_set() == m.values(),
            m == party_registry@,
            forall|i: int| 0 <= i < it.index() ==> !splits(*all[i], team_a@, team_b@),
    {
        if party_splits(party, team_a, team_b) {
            proof {
                let i = it.index();
                assert(all.unref()[i] == *party);
                assert(all.unref().to_set().contains(*party));
                assert(m.values().contains(*party));
                let k = choose|k: u64| #[trigger] m.contains_key(k) && m[k] == *party;
            }
            let mut msg = String::new();
            push_str(&mut msg, "party ");
            push_decimal(&mut msg, party.id);
            push_str(&mut msg, " has members not in the match (party integrity violated)");
            proof {
                reveal_strlit("party ");
                reveal_strlit(" has members not in the match (party integrity violated)");
            }
            return Err(msg);
        }
    }
    proof {
        assert forall|k: u64| #[trigger] m.contains_key(k) implies !splits(m[k], team_a@, team_b@) by {
            assert(m.values().contains(m[k]));
            assert(all.unref().to_set().contains(m[k]));
            let i = choose|i: int| 0 <= i < all.unref().len() && all.unref()[i] == m[k];
            assert(*all[i] == m[k]);
        }
    }
    Ok(())
}

/// A party of one is never split: its single member is either in the
/// match or not.
pub proof fn lemma_solo_never_split(p: Party, team_a: Seq<PlayerId>, team_b: Seq<PlayerId>)
    requires
        p.members@.len() == 1,
    ensures
        !splits(p, team_a, team_b),
{
}

/// What `register` writes, `get` reads back; what `remove` takes out,
/// `get` no longer finds; other identifiers are untouched by either.
pub proof fn lemma_register_get_remove(m: Map<u64, Party>, p: Party, k: u64)
    ensures
        m.insert(p.id, p).contains_key(p.id) && m.insert(p.id, p)[p.id] == p,
        !m.remove(k).contains_key(k),
        k != p.id ==> (m.insert(p.id, p).contains_key(k) == m.contains_key(k)) && (m.contains_key(k) ==> m.insert(
            p.id,
            p,
        )[k] == m[k]),
        k != p.id ==> (m.remove(p.id).contains_key(k) == m.contains_key(k)) && (m.contains_key(k) ==> m.remove(
            p.id,
        )[k] == m[k]),
{
}

} // verus!
