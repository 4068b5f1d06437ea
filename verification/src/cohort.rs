//! Cohorts: which players a metric is restricted to.
//!
//! Skill and session length are held as order keys: integers that order
//! players as those quantities do.
use vstd::prelude::*;
use crate::ids::{PlayerId, Region};

verus! {

/// What a cohort filter reads of a player.
#[derive(Debug, Clone)]
pub struct PlayerFacts {
    pub skill: u64,
    pub archetype: String,
    pub games_played: u64,
    pub region: Region,
    pub party_id: Option<u64>,
    pub session_length: u64,
}

/// A restriction of the population.
#[derive(Debug, Clone)]
pub enum CohortFilter {
    All,
    SkillRange(u64, u64),
    Archetype(String),
    GamesPlayedRange(u64, u64),
    Region(Region),
    PartySize(usize),
    SessionLength(u64, u64),
    IsSmurfByProperties { min_skill: u64, max_games: u64 },
}

/// Whether `p` belongs to the cohort of `f`. A party size asks whether the
/// player is in a party (any size above one) or alone (size one).
pub open spec fn in_cohort(f: CohortFilter, p: PlayerFacts) -> bool {
    match f {
        CohortFilter::All => true,
        CohortFilter::SkillRange(low, high) => low <= p.skill && p.skill <= high,
        CohortFilter::Archetype(name) => p.archetype@ == name@,
        CohortFilter::GamesPlayedRange(low, high) => low <= p.games_played && p.games_played <= high,
        CohortFilter::Region(r) => p.region == r,
        CohortFilter::PartySize(size) => if p.party_id is Some {
            size > 1
        } else {
            size == 1
        },
        CohortFilter::SessionLength(min, max) => min <= p.session_length && p.session_length <= max,
        CohortFilter::IsSmurfByProperties { min_skill, max_games } => p.skill > min_skill && p.games_played
            < max_games,
    }
}

/// A range filter holds its players to both ends of the range: below the
/// low end or above the high end a player is outside the cohort, and inside
/// it the player is in.
pub proof fn lemma_range_cohorts(low: u64, high: u64, p: PlayerFacts)
    ensures
        p.games_played < low ==> !in_cohort(CohortFilter::GamesPlayedRange(low, high), p),
        p.games_played > high ==> !in_cohort(CohortFilter::GamesPlayedRange(low, high), p),
        low <= p.games_played <= high ==> in_cohort(CohortFilter::GamesPlayedRange(low, high), p),
        p.skill < low ==> !in_cohort(CohortFilter::SkillRange(low, high), p),
        p.skill > high ==> !in_cohort(CohortFilter::SkillRange(low, high), p),
        low <= p.skill <= high ==> in_cohort(CohortFilter::SkillRange(low, high), p),
        p.session_length < low ==> !in_cohort(CohortFilter::SessionLength(low, high), p),
        p.session_length > high ==> !in_cohort(CohortFilter::SessionLength(low, high), p),
        low <= p.session_length <= high ==> in_cohort(CohortFilter::SessionLength(low, high), p),
{
}

/// The entries of `players` in the cohort of `f`, in order.
pub open spec fn cohort_entries(f: CohortFilter, players: Seq<(PlayerId, PlayerFacts)>) -> Seq<(PlayerId, PlayerFacts)> {
    players.filter(|e: (PlayerId, PlayerFacts)| in_cohort(f, e.1))
}

/// A filtered list keeps exactly the players whose games lie in the range:
/// every kept player was given with a game count inside it, and a player
/// given with a count outside it is never kept.
pub proof fn lemma_games_filter(low: u64, high: u64, players: Seq<(PlayerId, PlayerFacts)>)
    ensures
        forall|i: int|
            0 <= i < cohort_entries(CohortFilter::GamesPlayedRange(low, high), players).len() ==> low
                <= (#[trigger] cohort_entries(CohortFilter::GamesPlayedRange(low, high), players)[i]).1.games_played
                <= high,
        forall|i: int|
            0 <= i < players.len() && (players[i].1.games_played < low || players[i].1.games_played > high)
                ==> !cohort_entries(CohortFilter::GamesPlayedRange(low, high), players).contains(
                #[trigger] players[i],
            ),
{
    let f = |e: (PlayerId, PlayerFacts)| in_cohort(CohortFilter::GamesPlayedRange(low, high), e.1);
    players.filter_lemma(f);
}

impl CohortFilter {
    /// Whether `p` belongs to the cohort.
    pub fn matches(&self, p: &PlayerFacts) -> (b: bool)
        ensures
            b == in_cohort(*self, *p),
            *self matches CohortFilter::All ==> b,
            *self matches CohortFilter::SkillRange(low, high) ==> (b <==> low <= p.skill && p.skill <= high),
            *self matches CohortFilter::Archetype(name) ==> (b <==> p.archetype@ == name@),
            *self matches CohortFilter::GamesPlayedRange(low, high) ==> (b <==> low <= p.games_played
                && p.games_played <= high),
            *self matches CohortFilter::Region(r) ==> (b <==> p.region == r),
            *self matches CohortFilter::SessionLength(min, max) ==> (b <==> min <= p.session_length
                && p.session_length <= max),
            *self matches CohortFilter::IsSmurfByProperties { min_skill, max_games } ==> (b <==> min_skill
                < p.skill && p.games_played < max_games),
    {
        match self {
            CohortFilter::All => true,
            CohortFilter::SkillRange(low, high) => *low <= p.skill && p.skill <= *high,
            CohortFilter::Archetype(name) => p.archetype == *name,
            CohortFilter::GamesPlayedRange(low, high) => *low <= p.games_played && p.games_played <= *high,
            CohortFilter::Region(r) => p.region == *r,
            CohortFilter::PartySize(size) => match p.party_id {
                Some(_) => *size > 1,
                None => *size == 1,
            },
            CohortFilter::SessionLength(min, max) => *min <= p.session_length && p.session_length <= *max,
            CohortFilter::IsSmurfByProperties { min_skill, max_games } => p.skill > *min_skill
                && p.games_played < *max_games,
        }
    }

    /// The players of the cohort, in the order given.
    pub fn filter_player_ids(&self, players: &[(PlayerId, PlayerFacts)]) -> (res: Vec<PlayerId>)
        ensures
            res@ == players@.filter(|e: (PlayerId, PlayerFacts)| in_cohort(*self, e.1)).map_values(
                |e: (PlayerId, PlayerFacts)| e.0,
            ),
    {
        let ghost keep = |e: (PlayerId, PlayerFacts)| in_cohort(*self, e.1);
        let ghost first = |e: (PlayerId, PlayerFacts)| e.0;
        let mut res: Vec<PlayerId> = Vec::new();
        let mut i: usize = 0;
        while i < players.len()
            invariant
                i <= players@.len(),
                keep == (|e: (PlayerId, PlayerFacts)| in_cohort(*self, e.1)),
                first == (|e: (PlayerId, PlayerFacts)| e.0),
                res@ == players@.subrange(0, i as int).filter(keep).map_values(first),
            decreases players@.len() - i,
        {
            let ghost before = res@;
            if self.matches(&players[i].1) {
                res.push(players[i].0);
            }
            proof {
                reveal(Seq::filter);
                let pre = players@.subrange(0, i as int + 1);
                assert(pre.drop_last() =~= players@.subrange(0, i as int));
                assert(pre.last() == players@[i as int]);
                assert(res@ =~= pre.filter(keep).map_values(first));
            }
            i = i + 1;
        }
        assert(players@.subrange(0, players@.len() as int) =~= players@);
        res
    }
}

} // verus!
