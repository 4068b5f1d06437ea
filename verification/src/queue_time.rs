//! Queue waits of matched players: from joining the queue to the formation
//! of the match, never the match's own duration.
use vstd::prelude::*;
use crate::ids::{PlayerId, SimTime};
use crate::world::{PlayerProfile, World};

verus! {

/// The wait of `p` at `now`, when the world knows when `p` joined the queue.
pub open spec fn wait_of(w: Map<u64, PlayerProfile>, now: SimTime, p: PlayerId) -> Option<SimTime> {
    if w.contains_key(p.0) && w[p.0].queue_joined_at is Some {
        Some(now.duration_since_spec(w[p.0].queue_joined_at->0))
    } else {
        None
    }
}

/// The waits of the players of `ps` at `now`, in order, without the
/// players whose join time is not known.
pub open spec fn waits_of(w: Map<u64, PlayerProfile>, now: SimTime, ps: Seq<PlayerId>) -> Seq<SimTime>
    decreases ps.len(),
{
    if ps.len() == 0 {
        Seq::empty()
    } else {
        waits_of(w, now, ps.drop_last()) + match wait_of(w, now, ps.last()) {
            Some(t) => seq![t],
            None => Seq::empty(),
        }
    }
}

/// The waits of two lists one after the other are those of each list, in
/// turn.
pub proof fn lemma_waits_of_append(w: Map<u64, PlayerProfile>, now: SimTime, a: Seq<PlayerId>, b: Seq<PlayerId>)
    ensures
        waits_of(w, now, a + b) == waits_of(w, now, a) + waits_of(w, now, b),
    decreases b.len(),
{
    if b.len() == 0 {
        assert(a + b =~= a);
        assert(waits_of(w, now, b) =~= Seq::empty());
        assert(waits_of(w, now, a) + waits_of(w, now, b) =~= waits_of(w, now, a));
    } else {
        lemma_waits_of_append(w, now, a, b.drop_last());
        assert((a + b).drop_last() =~= a + b.drop_last());
        assert((a + b).last() == b.last());
        let tail = match wait_of(w, now, b.last()) {
            Some(t) => seq![t],
            None => Seq::<SimTime>::empty(),
        };
        assert(waits_of(w, now, a) + waits_of(w, now, b.drop_last()) + tail =~= waits_of(w, now, a) + (
        waits_of(w, now, b.drop_last()) + tail));
    }
}

/// Collects the queue wait of every matched player whose join time is
/// known.
#[derive(Debug, Clone)]
pub struct QueueTimeCollector {
    pub waits: Vec<SimTime>,
}

impl Default for QueueTimeCollector {
    /// A collector without waits.
    fn default() -> (c: QueueTimeCollector)
        ensures
            c.waits@ == Seq::<SimTime>::empty(),
    {
        QueueTimeCollector::new()
    }
}

impl QueueTimeCollector {
    /// A collector without waits.
    pub fn new() -> (c: QueueTimeCollector)
        ensures
            c.waits@ == Seq::<SimTime>::empty(),
    {
        QueueTimeCollector { waits: Vec::new() }
    }

    /// The name the metric is reported under.
    pub fn name(&self) -> (s: &'static str)
        ensures
            s@ == "queue_time"@,
    {
        proof {
            reveal_strlit("queue_time");
        }
        "queue_time"
    }

    /// Records, for a match formed at `now`, the wait of each player of
    /// team A and then of team B whose join time `world` knows.
    pub fn record_match(&mut self, team_a: &[PlayerId], team_b: &[PlayerId], world: &World, now: SimTime)
        ensures
            final(self).waits@ == old(self).waits@ + waits_of(world@, now, team_a@ + team_b@),
    {
        self.record_team(team_a, world, now);
        self.record_team(team_b, world, now);
        proof {
            lemma_waits_of_append(world@, now, team_a@, team_b@);
        }
    }

    fn record_team(&mut self, team: &[PlayerId], world: &World, now: SimTime)
        ensures
            final(self).waits@ == old(self).waits@ + waits_of(world@, now, team@),
    {
        let mut i: usize = 0;
        while i < team.len()
            invariant
                i <= team@.len(),
                self.waits@ == old(self).waits@ + waits_of(world@, now, team@.subrange(0, i as int)),
            decreases team@.len() - i,
        {
            let ghost before = self.waits@;
            let pid = team[i];
            proof {
                assert(team@.subrange(0, i as int + 1).drop_last() =~= team@.subrange(0, i as int));
                assert(team@.subrange(0, i as int + 1).last() == pid);
            }
            match world.profile(pid) {
                Some(profile) => match profile.queue_joined_at {
                    Some(joined) => {
                        self.waits.push(now.duration_since(joined));
                        proof {
                            assert(self.waits@ =~= before + seq![now.duration_since_spec(joined)]);
                        }
                    },
                    None => {},
                },
                None => {},
            }
            proof {
                assert(self.waits@ =~= old(self).waits@ + waits_of(world@, now, team@.subrange(0, i as int + 1)));
            }
            i = i + 1;
        }
        proof {
            assert(team@.subrange(0, team@.len() as int) =~= team@);
        }
    }
}

} // verus!
