//! What the library reads of each player: role, party, region and when the
//! player joined the queue.
use vstd::prelude::*;
use std::collections::HashMap;
use vstd::std_specs::iter::IteratorSpec;
use crate::ids::{PlayerId, Region, SimTime};

verus! {

broadcast use vstd::std_specs::hash::group_hash_axioms;

/// The facts about one player that constraints and metrics read.
#[derive(Debug, Clone)]
pub struct PlayerProfile {
    /// The role the player fills, if any.
    pub role: Option<String>,
    /// The party the player belongs to, if any.
    pub party_id: Option<u64>,
    /// The region the player connects from.
    pub region: Region,
    /// When the player joined the queue, if the player is queued.
    pub queue_joined_at: Option<SimTime>,
}

/// The players known to the simulation, by id.
#[derive(Debug, Default)]
pub struct World {
    profiles: HashMap<u64, PlayerProfile>,
}

impl View for World {
    type V = Map<u64, PlayerProfile>;

    closed spec fn view(&self) -> Map<u64, PlayerProfile> {
        self.profiles@
    }
}

/// `pid` is the key of one of the first `bound` entries of `all`.
pub open spec fn key_seen(all: Seq<(&u64, &PlayerProfile)>, bound: int, pid: PlayerId) -> bool {
    exists|j: int| 0 <= j < bound && pid.0 == *all[j].0
}

impl World {
    /// A world without players.
    pub fn new() -> (w: World)
        ensures
            w@ == Map::<u64, PlayerProfile>::empty(),
    {
        World { profiles: HashMap::new() }
    }

    /// Records `profile` for `id`, replacing any earlier profile.
    pub fn add_player(&mut self, id: PlayerId, profile: PlayerProfile)
        ensures
            final(self)@ == old(self)@.insert(id.0, profile),
    {
        self.profiles.insert(id.0, profile);
    }

    /// The profile of `id`, if known.
    pub fn profile(&self, id: PlayerId) -> (res: Option<&PlayerProfile>)
        ensures
            self@.contains_key(id.0) ==> res == Some(&self@[id.0]),
            !self@.contains_key(id.0) ==> res == None::<&PlayerProfile>,
    {
        self.profiles.get(&id.0)
    }

    /// The ids of every known player that belongs to party `party_id`, in no
    /// particular order.
    pub fn party_members(&self, party_id: u64) -> (res: Vec<PlayerId>)
        ensures
            forall|k: u64|
                #[trigger] self@.contains_key(k) && self@[k].party_id == Some(party_id) ==> res@.contains(
                    PlayerId(k),
                ),
            forall|i: int|
                0 <= i < res@.len() ==> self@.contains_key(#[trigger] res@[i].0) && self@[res@[i].0].party_id
                    == Some(party_id),
            res@.no_duplicates(),
    {
        let ghost m = self@;
        let ghost all = vstd::std_specs::hash::spec_hash_map_iter(&self.profiles).remaining();
        let mut out: Vec<PlayerId> = Vec::new();
        for kv in it: self.profiles.iter()
            invariant
                it.seq() == all,
                all.no_duplicates(),
                m == self@,
                out@.no_duplicates(),
                forall|i: int| 0 <= i < out@.len() ==> key_seen(all, it.index() as int, #[trigger] out@[i]),
                forall|i: int|
                    0 <= i < out@.len() ==> m.contains_key(#[trigger] out@[i].0) && m[out@[i].0].party_id
                        == Some(party_id),
                forall|i: int|
                    0 <= i < it.index() && all[i].1.party_id == Some(party_id) ==> out@.contains(
                        PlayerId(*all[i].0),
                    ),
        {
            let (k, v) = kv;
            let ghost idx = it.index();
            proof {
                assert(m.contains_key(*all[it.index()].0));
            }
            if v.party_id == Some(party_id) {
                let ghost before = out@;
                proof {
                    assert forall|i: int| 0 <= i < before.len() implies before[i] != PlayerId(*k) by {
                        assert(key_seen(all, idx, before[i]));
                        let j = choose|j: int| 0 <= j < idx && before[i].0 == *all[j].0;
                        if before[i] == PlayerId(*k) {
                            assert(all[j] == all[idx]);
                        }
                    }
                }
                out.push(PlayerId(*k));
                proof {
                    assert(out@[out@.len() - 1] == PlayerId(*k));
                    assert forall|i: int| 0 <= i < out@.len() implies key_seen(all, idx + 1, #[trigger] out@[i]) by {
                        if i < before.len() {
                            assert(out@[i] == before[i]);
                            assert(key_seen(all, idx, before[i]));
                            let j = choose|j: int| 0 <= j < idx && before[i].0 == *all[j].0;
                            assert(0 <= j < idx + 1 && out@[i].0 == *all[j].0);
                        } else {
                            assert(out@[i].0 == *all[idx].0);
                        }
                    }
                    assert forall|a: int, b: int| 0 <= a < out@.len() && 0 <= b < out@.len() && a != b implies out@[a] != out@[b] by {
                        if a < before.len() && b < before.len() {
                            assert(out@[a] == before[a] && out@[b] == before[b]);
                        } else if a < before.len() {
                            assert(out@[a] == before[a]);
                        } else if b < before.len() {
                            assert(out@[b] == before[b]);
                        }
                    }
                    assert forall|i: int|
                        0 <= i < it.index() + 1 && all[i].1.party_id == Some(party_id) implies out@.contains(
                        PlayerId(*all[i].0),
                    ) by {
                        if i < it.index() {
                            assert(before.contains(PlayerId(*all[i].0)));
                            let j = choose|j: int| 0 <= j < before.len() && before[j] == PlayerId(*all[i].0);
                            assert(out@[j] == before[j]);
                        }
                    }
                }
            } else {
                proof {
                    assert forall|i: int| 0 <= i < out@.len() implies key_seen(all, idx + 1, #[trigger] out@[i]) by {
                        assert(key_seen(all, idx, out@[i]));
                        let j = choose|j: int| 0 <= j < idx && out@[i].0 == *all[j].0;
                        assert(0 <= j < idx + 1 && out@[i].0 == *all[j].0);
                    }
                }
            }
        }
        proof {
            assert forall|k: u64|
                #[trigger] m.contains_key(k) && m[k].party_id == Some(party_id) implies out@.contains(
                PlayerId(k),
            ) by {
                assert(all.contains((&k, &m[k])));
                let i = choose|i: int| 0 <= i < all.len() && all[i] == (&k, &m[k]);
            }
        }
        out
    }
}

} // verus!
