//! Win and loss streaks: how long each player's runs of equal results get.
use vstd::prelude::*;
use std::collections::HashMap;
use crate::ids::{PlayerId, Team};
use crate::party::contains_player;

verus! {

broadcast use vstd::std_specs::hash::group_hash_axioms;

/// Whether the player at `pid` won a match with these teams and winner.
pub open spec fn won(team_a: Seq<PlayerId>, winner: Team, pid: PlayerId) -> bool {
    let on_a = team_a.contains(pid);
    (on_a && winner == Team::A) || (!on_a && winner == Team::B)
}

/// The running streak of a player not seen before: an empty winning streak.
pub open spec fn fresh_streak() -> (bool, u32) {
    (true, 0)
}

/// One player's result: extends the running streak when the result agrees
/// with it, otherwise records the finished streak and starts a new one.
pub open spec fn step(
    state: (Map<u64, (bool, u32)>, Seq<u32>),
    pid: PlayerId,
    w: bool,
) -> (Map<u64, (bool, u32)>, Seq<u32>) {
    let (streaks, ended) = state;
    let cur = if streaks.contains_key(pid.0) {
        streaks[pid.0]
    } else {
        fresh_streak()
    };
    if cur.0 == w {
        (streaks.insert(pid.0, (cur.0, (cur.1 + 1) as u32)), ended)
    } else {
        (streaks.insert(pid.0, (w, 1u32)), ended.push(cur.1))
    }
}

/// The state after the results of `players`, taken in order.
pub open spec fn record_all(
    state: (Map<u64, (bool, u32)>, Seq<u32>),
    players: Seq<PlayerId>,
    team_a: Seq<PlayerId>,
    winner: Team,
) -> (Map<u64, (bool, u32)>, Seq<u32>)
    decreases players.len(),
{
    if players.len() == 0 {
        state
    } else {
        let prev = record_all(state, players.drop_last(), team_a, winner);
        step(prev, players.last(), won(team_a, winner, players.last()))
    }
}

/// The player's running streak in `state`: a fresh one when none is kept.
pub open spec fn current(state: (Map<u64, (bool, u32)>, Seq<u32>), pid: PlayerId) -> (bool, u32) {
    if state.0.contains_key(pid.0) {
        state.0[pid.0]
    } else {
        fresh_streak()
    }
}

/// The state after the player's results `rs`, in order.
pub open spec fn replay(state: (Map<u64, (bool, u32)>, Seq<u32>), pid: PlayerId, rs: Seq<bool>) -> (
    Map<u64, (bool, u32)>,
    Seq<u32>,
)
    decreases rs.len(),
{
    if rs.len() == 0 {
        state
    } else {
        step(replay(state, pid, rs.drop_last()), pid, rs.last())
    }
}

/// Results equal to the running streak's lengthen it by one each and end
/// no streak.
pub proof fn lemma_streak_grows(state: (Map<u64, (bool, u32)>, Seq<u32>), pid: PlayerId, rs: Seq<bool>)
    requires
        forall|i: int| 0 <= i < rs.len() ==> #[trigger] rs[i] == current(state, pid).0,
        current(state, pid).1 + rs.len() <= u32::MAX,
    ensures
        current(replay(state, pid, rs), pid) == (current(state, pid).0, (current(state, pid).1 + rs.len()) as u32),
        replay(state, pid, rs).1 == state.1,
    decreases rs.len(),
{
    if rs.len() > 0 {
        assert forall|i: int| 0 <= i < rs.drop_last().len() implies #[trigger] rs.drop_last()[i] == current(
            state,
            pid,
        ).0 by {
            assert(rs.drop_last()[i] == rs[i]);
        }
        lemma_streak_grows(state, pid, rs.drop_last());
        assert(rs.last() == rs[rs.len() - 1]);
    }
}

/// A streak ends with the number of equal results it covered: a result
/// that differs from the running streak records that streak's length and
/// starts a streak of one; so after a change of result, `n` equal results
/// and then a different one, the streak recorded is `n` long.
pub proof fn lemma_streak_length(state: (Map<u64, (bool, u32)>, Seq<u32>), pid: PlayerId, r: bool, n: nat)
    requires
        current(state, pid).0 != r,
        1 <= n <= u32::MAX,
    ensures
        step(state, pid, r).1 == state.1.push(current(state, pid).1),
        current(step(state, pid, r), pid) == (r, 1u32),
        replay(state, pid, Seq::new(n, |i: int| r).push(!r)).1 == state.1.push(current(state, pid).1).push(
            n as u32,
        ),
        current(replay(state, pid, Seq::new(n, |i: int| r).push(!r)), pid) == (!r, 1u32),
{
    let runs = Seq::new(n, |i: int| r);
    let first = step(state, pid, r);
    let rest = Seq::new((n - 1) as nat, |i: int| r);
    assert(runs =~= seq![r] + rest);
    lemma_streak_grows(first, pid, rest);
    lemma_replay_split(state, pid, seq![r], rest);
    assert(replay(state, pid, seq![r]) == first) by {
        assert(seq![r].drop_last() =~= Seq::<bool>::empty());
        assert(replay(state, pid, seq![r].drop_last()) == state);
        assert(seq![r].last() == r);
    }
    let all = runs.push(!r);
    assert(all.drop_last() =~= runs);
}

/// Replaying two runs of results is replaying the first, then the second.
proof fn lemma_replay_split(state: (Map<u64, (bool, u32)>, Seq<u32>), pid: PlayerId, a: Seq<bool>, b: Seq<bool>)
    ensures
        replay(state, pid, a + b) == replay(replay(state, pid, a), pid, b),
    decreases b.len(),
{
    if b.len() == 0 {
        assert(a + b =~= a);
    } else {
        lemma_replay_split(state, pid, a, b.drop_last());
        assert((a + b).drop_last() =~= a + b.drop_last());
        assert((a + b).last() == b.last());
    }
}

/// Streaks: how often players reach long winning or losing streaks.
#[derive(Debug, Default)]
pub struct StreakCollector {
    streaks: HashMap<u64, (bool, u32)>,
    max_streaks: Vec<u32>,
}

impl StreakCollector {
    /// Each player's running streak: whether it is a winning streak, and its
    /// length.
    pub closed spec fn running(&self) -> Map<u64, (bool, u32)> {
        self.streaks@
    }

    /// The lengths of the streaks that have ended, in the order they ended.
    pub closed spec fn ended(&self) -> Seq<u32> {
        self.max_streaks@
    }

    /// No running streak is long enough to overflow within `extra` more
    /// results.
    pub open spec fn has_room(&self, extra: nat) -> bool {
        forall|k: u64| #[trigger] self.running().contains_key(k) ==> self.running()[k].1 + extra <= u32::MAX
    }

    /// A collector that has seen no match.
    pub fn new() -> (c: StreakCollector)
        ensures
            c.running() == Map::<u64, (bool, u32)>::empty(),
            c.ended() == Seq::<u32>::empty(),
    {
        StreakCollector { streaks: HashMap::new(), max_streaks: Vec::new() }
    }

    /// The collector's name among the metrics.
    pub fn name(&self) -> (s: &'static str)
        ensures
            s@ == "streaks"@,
    {
        proof {
            reveal_strlit("streaks");
        }
        "streaks"
    }

    /// Records the result of a match for every player of team A, then of
    /// team B.
    pub fn record_match(&mut self, team_a: &[PlayerId], team_b: &[PlayerId], winner: Team)
        requires
            team_a@.len() + team_b@.len() <= u32::MAX,
            old(self).has_room((team_a@.len() + team_b@.len()) as nat),
        ensures
            (final(self).running(), final(self).ended()) == record_all(
                (old(self).running(), old(self).ended()),
                team_a@ + team_b@,
                team_a@,
                winner,
            ),
    {
        let ghost players = team_a@ + team_b@;
        let ghost start = (self.running(), self.ended());
        let total = team_a.len() + team_b.len();
        let mut i: usize = 0;
        while i < total
            invariant
                i <= total,
                total == team_a@.len() + team_b@.len(),
                players == team_a@ + team_b@,
                (self.running(), self.ended()) == record_all(
                    start,
                    players.subrange(0, i as int),
                    team_a@,
                    winner,
                ),
                forall|k: u64|
                    #[trigger] self.running().contains_key(k) ==> self.running()[k].1 + (total - i)
                        <= u32::MAX,
                total <= u32::MAX,
            decreases total - i,
        {
            let pid = if i < team_a.len() {
                team_a[i]
            } else {
                team_b[i - team_a.len()]
            };
            assert(pid == players[i as int]);
            let is_team_a = contains_player(team_a, pid);
            let w = (is_team_a && winner == Team::A) || (!is_team_a && winner == Team::B);
            let cur = match self.streaks.get(&pid.0) {
                Some(entry) => *entry,
                None => (true, 0u32),
            };
            if cur.0 == w {
                self.streaks.insert(pid.0, (cur.0, cur.1 + 1));
            } else {
                self.max_streaks.push(cur.1);
                self.streaks.insert(pid.0, (w, 1));
            }
            proof {
                let next = players.subrange(0, i + 1);
                assert(next.drop_last() =~= players.subrange(0, i as int));
                assert(next.last() == pid);
            }
            i = i + 1;
        }
        assert(players.subrange(0, total as int) =~= players);
    }

    /// How many ended streaks reached length `threshold`.
    pub fn count_at_least(&self, threshold: u32) -> (n: usize)
        ensures
            n == self.ended().filter(|s: u32| s >= threshold).len(),
    {
        let mut n: usize = 0;
        let mut i: usize = 0;
        while i < self.max_streaks.len()
            invariant
                i <= self.max_streaks@.len(),
                n == self.max_streaks@.subrange(0, i as int).filter(|s: u32| s >= threshold).len(),
                n <= i,
            decreases self.max_streaks@.len() - i,
        {
            proof {
                reveal(Seq::filter);
                assert(self.max_streaks@.subrange(0, i + 1).drop_last() =~= self.max_streaks@.subrange(
                    0,
                    i as int,
                ));
            }
            if self.max_streaks[i] >= threshold {
                n = n + 1;
            }
            i = i + 1;
        }
        assert(self.max_streaks@.subrange(0, i as int) =~= self.max_streaks@);
        n
    }

    /// How many streaks have ended.
    pub fn ended_count(&self) -> (n: usize)
        ensures
            n == self.ended().len(),
    {
        self.max_streaks.len()
    }
}

} // verus!
