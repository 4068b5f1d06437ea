//! Search strategies that form matches anchor by anchor, steered by a score
//! supplied by the caller.
use vstd::prelude::*;
use crate::constraint::ProposedMatch;
use crate::ids::PlayerId;
use crate::order::{is_stable_order, stable_order};
use crate::party::contains_player;
use crate::queue::{distinct_players, QueueEntry};
use crate::rng::{index_draws, Draw, SimRng};
use crate::unmatched::{
    free_count, lemma_free_extra, lemma_free_witness, lemma_unmatched_mono, lemma_unmatched_none,
    lemma_unmatched_same, lemma_unmatched_split, lemma_unmatched_within, unmatched_count,
};

verus! {

/// Scores a (possibly partial) pair of teams. Larger keys are better; only
/// their order matters.
pub trait MatchScorer {
    fn score_key(&self, team_a: &[PlayerId], team_b: &[PlayerId]) -> u64;
}

/// Every player of all the matches, match by match, team A before team B.
pub open spec fn players_of(ms: Seq<ProposedMatch>) -> Seq<PlayerId>
    decreases ms.len(),
{
    if ms.len() == 0 {
        Seq::empty()
    } else {
        players_of(ms.drop_last()) + ms.last().team_a@ + ms.last().team_b@
    }
}

/// No player appears twice in `s`.
pub open spec fn all_distinct(s: Seq<PlayerId>) -> bool {
    forall|i: int, j: int| 0 <= i < s.len() && 0 <= j < s.len() && i != j ==> s[i] != s[j]
}

/// `pid` is the player of some queue entry.
pub open spec fn queued(queue: Seq<QueueEntry>, pid: PlayerId) -> bool {
    exists|j: int| 0 <= j < queue.len() && queue[j].player_id == pid
}

/// Every match has two teams of `k` players, and every player comes from
/// the queue.
pub open spec fn matches_from_queue(ms: Seq<ProposedMatch>, queue: Seq<QueueEntry>, k: nat) -> bool {
    &&& forall|i: int|
        0 <= i < ms.len() ==> (#[trigger] ms[i]).team_a@.len() == k && ms[i].team_b@.len() == k
    &&& forall|i: int| 0 <= i < players_of(ms).len() ==> queued(queue, #[trigger] players_of(ms)[i])
}

/// Every match has two teams of `k` players, no player is in two places,
/// and every player comes from the queue.
pub open spec fn valid_matches(ms: Seq<ProposedMatch>, queue: Seq<QueueEntry>, k: nat) -> bool {
    &&& matches_from_queue(ms, queue, k)
    &&& all_distinct(players_of(ms))
}

/// A partial pair of teams under construction.
pub struct Partial {
    pub a: Vec<PlayerId>,
    pub b: Vec<PlayerId>,
}

/// The players of a partial pair, team A first.
pub open spec fn members(p: Partial) -> Seq<PlayerId> {
    p.a@ + p.b@
}

/// A partial pair grown from `anchor`: team A starts with the anchor, the
/// teams alternate (A is as long as B or one longer), it has `t` distinct
/// queue players, none of them in `used`.
pub open spec fn good_partial(
    p: Partial,
    anchor: PlayerId,
    used: Seq<PlayerId>,
    queue: Seq<QueueEntry>,
    t: nat,
) -> bool {
    &&& p.a@.len() > 0 && p.a@[0] == anchor
    &&& (p.a@.len() == p.b@.len() || p.a@.len() == p.b@.len() + 1)
    &&& members(p).len() == t
    &&& all_distinct(members(p))
    &&& forall|i: int| 0 <= i < members(p).len() ==> queued(queue, #[trigger] members(p)[i])
    &&& forall|i: int| 0 <= i < members(p).len() ==> !used.contains(#[trigger] members(p)[i])
}

/// A copy of `v`.
fn copy_ids(v: &Vec<PlayerId>) -> (res: Vec<PlayerId>)
    ensures
        res@ == v@,
{
    let mut res: Vec<PlayerId> = Vec::new();
    let mut i: usize = 0;
    while i < v.len()
        invariant
            i <= v@.len(),
            res@ == v@.subrange(0, i as int),
        decreases v@.len() - i,
    {
        res.push(v[i]);
        i = i + 1;
        assert(res@ =~= v@.subrange(0, i as int));
    }
    assert(v@.subrange(0, v@.len() as int) =~= v@);
    res
}

/// `p` grown by `pid`, on team A when the teams are even, else on team B.
fn extend(p: &Partial, pid: PlayerId) -> (q: Partial)
    ensures
        p.a@.len() <= p.b@.len() ==> q.a@ == p.a@.push(pid) && q.b@ == p.b@,
        p.a@.len() > p.b@.len() ==> q.a@ == p.a@ && q.b@ == p.b@.push(pid),
{
    let mut a = copy_ids(&p.a);
    let mut b = copy_ids(&p.b);
    if a.len() <= b.len() {
        a.push(pid);
    } else {
        b.push(pid);
    }
    Partial { a, b }
}

proof fn lemma_extend_good(
    p: Partial,
    q: Partial,
    pid: PlayerId,
    anchor: PlayerId,
    used: Seq<PlayerId>,
    queue: Seq<QueueEntry>,
    t: nat,
)
    requires
        good_partial(p, anchor, used, queue, t),
        p.a@.len() <= p.b@.len() ==> q.a@ == p.a@.push(pid) && q.b@ == p.b@,
        p.a@.len() > p.b@.len() ==> q.a@ == p.a@ && q.b@ == p.b@.push(pid),
        queued(queue, pid),
        !used.contains(pid),
        !members(p).contains(pid),
    ensures
        good_partial(q, anchor, used, queue, t + 1),
{
    if p.a@.len() <= p.b@.len() {
        assert(members(q) =~= p.a@.push(pid) + p.b@);
        assert forall|i: int| 0 <= i < members(q).len() implies #[trigger] members(q)[i] == if i
            < p.a@.len() {
            members(p)[i]
        } else if i == p.a@.len() {
            pid
        } else {
            members(p)[i - 1]
        } by {}
    } else {
        assert(members(q) =~= members(p).push(pid));
    }
    assert forall|i: int, j: int|
        0 <= i < members(q).len() && 0 <= j < members(q).len() && i != j implies members(q)[i]
        != members(q)[j] by {
        if p.a@.len() <= p.b@.len() {
            let al = p.a@.len() as int;
            let oi = if i < al { i } else if i == al { -1 } else { i - 1 };
            let oj = if j < al { j } else if j == al { -1 } else { j - 1 };
            if oi >= 0 && oj >= 0 {
                assert(members(q)[i] == members(p)[oi] && members(q)[j] == members(p)[oj]);
            } else if oi >= 0 {
                assert(members(q)[i] == members(p)[oi]);
            } else if oj >= 0 {
                assert(members(q)[j] == members(p)[oj]);
            }
        } else {
            if i < members(p).len() && j < members(p).len() {
            } else if i < members(p).len() {
                assert(members(q)[i] == members(p)[i]);
            } else if j < members(p).len() {
                assert(members(q)[j] == members(p)[j]);
            }
        }
    }
}

/// Appends `xs` to `used`.
pub(crate) fn push_all(used: &mut Vec<PlayerId>, xs: &Vec<PlayerId>)
    ensures
        final(used)@ == old(used)@ + xs@,
{
    let mut k: usize = 0;
    while k < xs.len()
        invariant
            k <= xs@.len(),
            used@ == old(used)@ + xs@.subrange(0, k as int),
        decreases xs@.len() - k,
    {
        used.push(xs[k]);
        k = k + 1;
        assert(used@ =~= old(used)@ + xs@.subrange(0, k as int));
    }
    assert(xs@.subrange(0, xs@.len() as int) =~= xs@);
}

/// How near a candidate lies to a team, for the greedy search.
pub trait NearestKey {
    /// An order key of how far `candidate`'s rating lies from the mean
    /// rating of `team`: smaller is nearer, and `u64::MAX` stands for a
    /// distance that is not finite, which is never taken.
    fn distance_key(&self, team: &[PlayerId], candidate: PlayerId) -> u64;
}

/// For each entry, greedily fills teams with the nearest available players
/// by rating, then balances by alternating. Fast but not globally optimal.
#[derive(Debug, Clone, Copy)]
pub struct GreedySearch;

/// `k` is a key that `keys` can give for `candidate` measured from `team`.
pub open spec fn gives_key<S: NearestKey>(keys: &S, team: &[PlayerId], candidate: PlayerId, k: u64) -> bool {
    call_ensures(S::distance_key, (keys, team, candidate), k)
}

/// `keys` can give for `candidate`, measured from `team`, a key of at
/// least `bound`.
pub open spec fn key_at_least<S: NearestKey>(keys: &S, team: &[PlayerId], candidate: PlayerId, bound: u64) -> bool {
    exists|k: u64| #[trigger] gives_key(keys, team, candidate, k) && bound <= k
}

/// `keys` measures every distance as finite: it never gives `u64::MAX`.
pub open spec fn all_finite<S: NearestKey>(keys: &S) -> bool {
    forall|team: &[PlayerId], c: PlayerId, k: u64| #[trigger] gives_key(keys, team, c, k) ==> k < u64::MAX
}

/// The player of entry `j` is neither used nor a member.
pub open spec fn free_at(queue: Seq<QueueEntry>, used: Seq<PlayerId>, members: Seq<PlayerId>, j: int) -> bool {
    !used.contains(queue[j].player_id) && !members.contains(queue[j].player_id)
}

/// `p` is free of `used` and `members`, and `keys` gives it, measured from
/// `team`, a finite key that no free candidate can undercut.
pub open spec fn nearest_pick<S: NearestKey>(
    keys: &S,
    queue: Seq<QueueEntry>,
    used: Seq<PlayerId>,
    members: Seq<PlayerId>,
    team: Seq<PlayerId>,
    p: PlayerId,
) -> bool {
    &&& queued(queue, p)
    &&& !used.contains(p)
    &&& !members.contains(p)
    &&& exists|ta: &[PlayerId], kp: u64|
        #![trigger gives_key(keys, ta, p, kp)]
        ta@ == team && kp < u64::MAX && gives_key(keys, ta, p, kp) && (forall|j: int|
            0 <= j < queue.len() && free_at(queue, used, members, j) ==> key_at_least(
                keys,
                ta,
                #[trigger] queue[j].player_id,
                kp,
            )) && first_nearest(keys, queue, used, members, ta, p, kp)
}

/// Pick `s` (from 1) of an attempt that ended with teams `a` and `b`:
/// picks alternate between team B (odd steps) and team A (even steps), so
/// before pick `s` team A held `(s + 1) / 2` players and team B `s / 2`.
pub open spec fn nearest_step<S: NearestKey>(
    keys: &S,
    queue: Seq<QueueEntry>,
    used: Seq<PlayerId>,
    a: Seq<PlayerId>,
    b: Seq<PlayerId>,
    s: int,
) -> bool {
    let ta = a.subrange(0, (s + 1) / 2);
    let tb = b.subrange(0, s / 2);
    nearest_pick(keys, queue, used, ta + tb, ta, if s % 2 == 1 { b[s / 2] } else { a[s / 2] })
}

/// No free candidate has a finite key measured from team `a`.
pub open spec fn stuck_at<S: NearestKey>(
    keys: &S,
    queue: Seq<QueueEntry>,
    used: Seq<PlayerId>,
    a: Seq<PlayerId>,
    b: Seq<PlayerId>,
) -> bool {
    exists|ta: &[PlayerId]|
        #![trigger ta@]
        ta@ == a && forall|j: int|
            0 <= j < queue.len() && free_at(queue, used, a + b, j) ==> key_at_least(
                keys,
                ta,
                #[trigger] queue[j].player_id,
                u64::MAX,
            )
}

/// One greedy attempt with the players `used` before it: the first free
/// entry's player anchors team A, every later player is a nearest pick, and
/// the attempt ends with two full teams or stuck.
pub open spec fn greedy_attempt<S: NearestKey>(
    keys: &S,
    queue: Seq<QueueEntry>,
    k: nat,
    used: Seq<PlayerId>,
    att: (Seq<PlayerId>, Seq<PlayerId>),
) -> bool {
    let (a, b) = att;
    &&& a.len() >= 1
    &&& exists|j: int| #[trigger] first_free_entry(queue, used, j) && queue[j].player_id == a[0]
    &&& a.len() == b.len() || a.len() == b.len() + 1
    &&& a.len() <= k && b.len() <= k
    &&& forall|s: int| 1 <= s < a.len() + b.len() ==> #[trigger] nearest_step(keys, queue, used, a, b, s)
    &&& (a.len() == k && b.len() == k) || stuck_at(keys, queue, used, a, b)
}

/// The players the attempts mark used, in turn: each anchor, then its team
/// A (the anchor again), then its team B.
pub open spec fn attempt_players(tr: Seq<(Seq<PlayerId>, Seq<PlayerId>)>) -> Seq<PlayerId>
    decreases tr.len(),
{
    if tr.len() == 0 {
        Seq::empty()
    } else {
        attempt_players(tr.drop_last()) + seq![tr.last().0[0]] + tr.last().0 + tr.last().1
    }
}

/// The attempts of `tr` that filled both teams, in order.
pub open spec fn full_attempts(tr: Seq<(Seq<PlayerId>, Seq<PlayerId>)>, k: nat) -> Seq<
    (Seq<PlayerId>, Seq<PlayerId>),
>
    decreases tr.len(),
{
    if tr.len() == 0 {
        Seq::empty()
    } else {
        full_attempts(tr.drop_last(), k) + if tr.last().0.len() == k && tr.last().1.len() == k {
            seq![tr.last()]
        } else {
            Seq::empty()
        }
    }
}

/// A whole greedy run: each attempt follows the ones before it, and no
/// queue entry is left free at the end.
pub open spec fn greedy_run<S: NearestKey>(
    keys: &S,
    queue: Seq<QueueEntry>,
    k: nat,
    tr: Seq<(Seq<PlayerId>, Seq<PlayerId>)>,
) -> bool {
    &&& forall|t: int|
        0 <= t < tr.len() ==> #[trigger] greedy_attempt(keys, queue, k, attempt_players(tr.subrange(0, t)), tr[t])
    &&& forall|j: int| 0 <= j < queue.len() ==> attempt_players(tr).contains(#[trigger] queue[j].player_id)
}

/// The two teams of each match.
pub open spec fn team_views(ms: Seq<ProposedMatch>) -> Seq<(Seq<PlayerId>, Seq<PlayerId>)> {
    ms.map_values(|m: ProposedMatch| (m.team_a@, m.team_b@))
}

/// A pick recorded for teams `a` and `b` still reads the same once they
/// have grown.
proof fn lemma_step_stable<S: NearestKey>(
    keys: &S,
    queue: Seq<QueueEntry>,
    used: Seq<PlayerId>,
    a: Seq<PlayerId>,
    b: Seq<PlayerId>,
    a2: Seq<PlayerId>,
    b2: Seq<PlayerId>,
    s: int,
)
    requires
        a.len() == b.len() || a.len() == b.len() + 1,
        a.len() <= a2.len() && b.len() <= b2.len(),
        a2.subrange(0, a.len() as int) == a,
        b2.subrange(0, b.len() as int) == b,
        1 <= s < a.len() + b.len(),
        nearest_step(keys, queue, used, a, b, s),
    ensures
        nearest_step(keys, queue, used, a2, b2, s),
{
    let ha = (s + 1) / 2;
    let hb = s / 2;
    assert(ha <= a.len() && hb <= b.len());
    assert(a2.subrange(0, ha) =~= a.subrange(0, ha));
    assert(b2.subrange(0, hb) =~= b.subrange(0, hb));
    if s % 2 == 1 {
        assert(hb < b.len());
        assert(b2[hb] == b2.subrange(0, b.len() as int)[hb]);
    } else {
        assert(hb < a.len());
        assert(a2[hb] == a2.subrange(0, a.len() as int)[hb]);
    }
}

/// A nearest pick that joins team A (teams even) or team B (team A ahead)
/// is the next step of the attempt.
proof fn lemma_step_new<S: NearestKey>(
    keys: &S,
    queue: Seq<QueueEntry>,
    used: Seq<PlayerId>,
    a: Seq<PlayerId>,
    b: Seq<PlayerId>,
    p: PlayerId,
)
    requires
        a.len() == b.len() || a.len() == b.len() + 1,
        nearest_pick(keys, queue, used, a + b, a, p),
    ensures
        a.len() <= b.len() ==> nearest_step(keys, queue, used, a.push(p), b, (a.len() + b.len()) as int),
        a.len() > b.len() ==> nearest_step(keys, queue, used, a, b.push(p), (a.len() + b.len()) as int),
{
    let s = (a.len() + b.len()) as int;
    if a.len() <= b.len() {
        assert((s + 1) / 2 == a.len() && s / 2 == b.len() && s % 2 == 0);
        assert(a.push(p).subrange(0, a.len() as int) =~= a);
        assert(b.subrange(0, b.len() as int) =~= b);
    } else {
        assert((s + 1) / 2 == a.len() && s / 2 == b.len() && s % 2 == 1);
        assert(a.subrange(0, a.len() as int) =~= a);
        assert(b.push(p).subrange(0, b.len() as int) =~= b);
    }
}

/// `p` is the player of an entry that every free entry before it
/// outranks: each can be given, measured from `team`, a key above `kp`.
pub open spec fn first_nearest<S: NearestKey>(
    keys: &S,
    queue: Seq<QueueEntry>,
    used: Seq<PlayerId>,
    members: Seq<PlayerId>,
    team: &[PlayerId],
    p: PlayerId,
    kp: u64,
) -> bool {
    exists|jp: int|
        0 <= jp < queue.len() && #[trigger] queue[jp].player_id == p && forall|j: int|
            0 <= j < jp && free_at(queue, used, members, j) ==> key_at_least(
                keys,
                team,
                #[trigger] queue[j].player_id,
                (kp + 1) as u64,
            )
}

impl GreedySearch {
    /// The first queue entry whose player is neither used nor on either
    /// team and whose key, measured from team A, is the smallest below
    /// `u64::MAX`; `None` when every free candidate's key is `u64::MAX`
    /// (in particular when no candidate is free).
    fn pick_nearest<S: NearestKey>(
        queue: &[QueueEntry],
        keys: &S,
        used: &Vec<PlayerId>,
        team_a: &[PlayerId],
        team_b: &Vec<PlayerId>,
    ) -> (pick: Option<PlayerId>)
        ensures
            match pick {
                Some(p) => {
                    &&& queued(queue@, p)
                    &&& !used@.contains(p)
                    &&& !(team_a@ + team_b@).contains(p)
                    &&& exists|kp: u64|
                        kp < u64::MAX && #[trigger] gives_key(keys, team_a, p, kp) && (forall|j: int|
                            0 <= j < queue@.len() && free_at(queue@, used@, team_a@ + team_b@, j)
                                ==> key_at_least(keys, team_a, #[trigger] queue@[j].player_id, kp)) && first_nearest(
                            keys,
                            queue@,
                            used@,
                            team_a@ + team_b@,
                            team_a,
                            p,
                            kp,
                        )
                },
                None => forall|j: int|
                    0 <= j < queue@.len() && free_at(queue@, used@, team_a@ + team_b@, j) ==> key_at_least(
                        keys,
                        team_a,
                        #[trigger] queue@[j].player_id,
                        u64::MAX,
                    ),
            },
    {
        let ghost members = team_a@ + team_b@;
        let mut best: Option<PlayerId> = None;
        let mut best_key: u64 = u64::MAX;
        let ghost mut best_j: int = 0;
        let mut j: usize = 0;
        while j < queue.len()
            invariant
                j <= queue@.len(),
                members == team_a@ + team_b@,
                best is None ==> best_key == u64::MAX,
                best is Some ==> best_key < u64::MAX && queued(queue@, best->0) && !used@.contains(best->0)
                    && !members.contains(best->0) && gives_key(keys, team_a, best->0, best_key),
                best is Some ==> 0 <= best_j < j && queue@[best_j].player_id == best->0 && forall|i: int|
                    0 <= i < best_j && free_at(queue@, used@, members, i) ==> key_at_least(
                        keys,
                        team_a,
                        #[trigger] queue@[i].player_id,
                        (best_key + 1) as u64,
                    ),
                forall|i: int|
                    0 <= i < j && free_at(queue@, used@, members, i) ==> key_at_least(
                        keys,
                        team_a,
                        #[trigger] queue@[i].player_id,
                        best_key,
                    ),
            decreases queue@.len() - j,
        {
            let pid = queue[j].player_id;
            let ghost old_best = best_key;
            proof {
                assert(queue@[j as int].player_id == pid);
            }
            if !contains_player(used, pid) && !contains_player(team_a, pid) && !contains_player(team_b, pid) {
                let key = keys.distance_key(team_a, pid);
                proof {
                    assert(!members.contains(pid)) by {
                        if members.contains(pid) {
                            let t = choose|t: int| 0 <= t < members.len() && members[t] == pid;
                            if t < team_a@.len() {
                                assert(team_a@[t] == pid);
                            } else {
                                assert(team_b@[t - team_a@.len()] == pid);
                            }
                        }
                    }
                    assert(gives_key(keys, team_a, pid, key));
                }
                if key < best_key {
                    best_key = key;
                    best = Some(pid);
                    proof {
                        best_j = j as int;
                        assert forall|i: int|
                            0 <= i < best_j && free_at(queue@, used@, members, i) implies key_at_least(
                            keys,
                            team_a,
                            #[trigger] queue@[i].player_id,
                            (best_key + 1) as u64,
                        ) by {
                            assert(key_at_least(keys, team_a, queue@[i].player_id, old_best));
                            let k = choose|k: u64| #[trigger] gives_key(keys, team_a, queue@[i].player_id, k) && old_best <= k;
                        }
                        assert forall|i: int|
                            0 <= i < j + 1 && free_at(queue@, used@, members, i) implies key_at_least(
                            keys,
                            team_a,
                            #[trigger] queue@[i].player_id,
                            best_key,
                        ) by {
                            if i < j {
                                assert(key_at_least(keys, team_a, queue@[i].player_id, old_best));
                                let k = choose|k: u64| #[trigger] gives_key(keys, team_a, queue@[i].player_id, k) && old_best <= k;
                            } else {
                                assert(gives_key(keys, team_a, queue@[i].player_id, key));
                            }
                        }
                    }
                } else {
                    proof {
                        assert(gives_key(keys, team_a, queue@[j as int].player_id, key));
                        assert(key_at_least(keys, team_a, queue@[j as int].player_id, best_key));
                    }
                }
            } else {
                proof {
                    assert(!free_at(queue@, used@, members, j as int)) by {
                        if team_a@.contains(pid) {
                            let t = choose|t: int| 0 <= t < team_a@.len() && team_a@[t] == pid;
                            assert(members[t] == pid);
                        }
                        if team_b@.contains(pid) {
                            let t = choose|t: int| 0 <= t < team_b@.len() && team_b@[t] == pid;
                            assert(members[team_a@.len() + t] == pid);
                        }
                    }
                }
            }
            j = j + 1;
        }
        proof {
            if best is Some {
                assert(first_nearest(keys, queue@, used@, members, team_a, best->0, best_key));
            }
        }
        best
    }

    /// For each queue entry whose player is not yet used, in queue order:
    /// the anchor alone on team A, then, while a team is short, the nearest
    /// free player (as `keys` measures it from team A; of equally near ones,
    /// the first in queue order) joins team A when the
    /// teams are even and team B otherwise; when no player can be taken the
    /// attempt stops. Every player of an attempt is used from then on; a
    /// full pair becomes a match. Every match has two teams of `team_size`
    /// starting with its anchor, no player is in two places, and every
    /// player comes from the queue. When `keys` measures every distance as
    /// finite and no player is queued twice, an attempt stops only once no
    /// player is left, so fewer than `2 * team_size` entries stay
    /// unmatched.
    pub fn search<S: NearestKey>(&self, queue: &[QueueEntry], keys: &S, team_size: usize) -> (res: Vec<
        ProposedMatch,
    >)
        requires
            2 * team_size <= usize::MAX,
        ensures
            valid_matches(res@, queue@, team_size as nat),
            team_size == 0 ==> res@.len() == 0,
            all_finite(keys) && team_size > 0 && distinct_players(queue@) ==> unmatched_count(
                queue@,
                players_of(res@),
            ) < 2 * team_size,
            team_size > 0 ==> exists|tr: Seq<(Seq<PlayerId>, Seq<PlayerId>)>|
                #[trigger] greedy_run(keys, queue@, team_size as nat, tr) && team_views(res@) == full_attempts(
                    tr,
                    team_size as nat,
                ),
    {
        let mut matches: Vec<ProposedMatch> = Vec::new();
        if team_size == 0 {
            return matches;
        }
        let ghost live = all_finite(keys) && distinct_players(queue@);
        let ghost mut failed = false;
        let ghost mut fail_members: Seq<PlayerId> = Seq::empty();
        let ghost mut trace: Seq<(Seq<PlayerId>, Seq<PlayerId>)> = Seq::empty();
        let n = queue.len();
        let mut used: Vec<PlayerId> = Vec::new();
        let mut q: usize = 0;
        while q < n
            invariant
                q <= n,
                n == queue@.len(),
                team_size > 0,
                2 * team_size <= usize::MAX,
                live == (all_finite(keys) && distinct_players(queue@)),
                valid_matches(matches@, queue@, team_size as nat),
                forall|i: int| 0 <= i < players_of(matches@).len() ==> used@.contains(
                    #[trigger] players_of(matches@)[i],
                ),
                forall|j: int| 0 <= j < q ==> used@.contains(#[trigger] queue@[j].player_id),
                !failed ==> forall|x: PlayerId| used@.contains(x) ==> players_of(matches@).contains(x),
                live && failed ==> fail_members.len() < 2 * team_size,
                live && failed ==> forall|j: int| 0 <= j < n ==> used@.contains(#[trigger] queue@[j].player_id),
                live && failed ==> forall|j: int|
                    0 <= j < n ==> players_of(matches@).contains(#[trigger] queue@[j].player_id)
                        || fail_members.contains(queue@[j].player_id),
                used@ == attempt_players(trace),
                team_views(matches@) == full_attempts(trace, team_size as nat),
                forall|t: int|
                    0 <= t < trace.len() ==> #[trigger] greedy_attempt(
                        keys,
                        queue@,
                        team_size as nat,
                        attempt_players(trace.subrange(0, t)),
                        trace[t],
                    ),
            decreases n - q,
        {
            let anchor = queue[q].player_id;
            proof {
                assert(queue@[q as int].player_id == anchor);
            }
            if !contains_player(&used, anchor) {
                let mut team_a: Vec<PlayerId> = Vec::new();
                team_a.push(anchor);
                let mut team_b: Vec<PlayerId> = Vec::new();
                let mut stuck = false;
                proof {
                    assert(team_a@ + team_b@ =~= seq![anchor]);
                }
                while !stuck && (team_a.len() < team_size || team_b.len() < team_size)
                    invariant
                        team_size > 0,
                        2 * team_size <= usize::MAX,
                        n == queue@.len(),
                        live == (all_finite(keys) && distinct_players(queue@)),
                        team_a@.len() >= 1 && team_a@[0] == anchor,
                        team_a@.len() == team_b@.len() || team_a@.len() == team_b@.len() + 1,
                        team_a@.len() <= team_size && team_b@.len() <= team_size,
                        forall|t: int|
                            0 <= t < (team_a@ + team_b@).len() ==> queued(queue@, #[trigger] (team_a@ + team_b@)[t])
                                && !used@.contains((team_a@ + team_b@)[t]),
                        all_distinct(team_a@ + team_b@),
                        stuck && live ==> forall|j: int|
                            0 <= j < n ==> used@.contains(#[trigger] queue@[j].player_id) || (team_a@
                                + team_b@).contains(queue@[j].player_id),
                        forall|s: int|
                            1 <= s < team_a@.len() + team_b@.len() ==> #[trigger] nearest_step(
                                keys,
                                queue@,
                                used@,
                                team_a@,
                                team_b@,
                                s,
                            ),
                        stuck ==> stuck_at(keys, queue@, used@, team_a@, team_b@),
                    decreases 2 * team_size - team_a@.len() - team_b@.len() + (if stuck {
                        0int
                    } else {
                        1int
                    }),
                {
                    let ghost members = team_a@ + team_b@;
                    let ghost a0 = team_a@;
                    let ghost b0 = team_b@;
                    let ta = team_a.as_slice();
                    let pick = GreedySearch::pick_nearest(queue, keys, &used, ta, &team_b);
                    match pick {
                        Some(p) => {
                            proof {
                                let kp = choose|kp: u64|
                                    kp < u64::MAX && #[trigger] gives_key(keys, ta, p, kp) && (forall|j: int|
                                        0 <= j < queue@.len() && free_at(queue@, used@, ta@ + team_b@, j)
                                            ==> key_at_least(keys, ta, #[trigger] queue@[j].player_id, kp))
                                        && first_nearest(keys, queue@, used@, ta@ + team_b@, ta, p, kp);
                                assert(gives_key(keys, ta, p, kp));
                                assert(nearest_pick(keys, queue@, used@, a0 + b0, a0, p));
                                lemma_step_new(keys, queue@, used@, a0, b0, p);
                            }
                            if team_a.len() <= team_b.len() {
                                team_a.push(p);
                                proof {
                                    assert forall|s: int| 1 <= s < team_a@.len() + team_b@.len() implies #[trigger] nearest_step(
                                        keys,
                                        queue@,
                                        used@,
                                        team_a@,
                                        team_b@,
                                        s,
                                    ) by {
                                        if s < a0.len() + b0.len() {
                                            assert(team_a@.subrange(0, a0.len() as int) =~= a0);
                                            assert(team_b@.subrange(0, b0.len() as int) =~= b0);
                                            lemma_step_stable(keys, queue@, used@, a0, b0, team_a@, team_b@, s);
                                        }
                                    }
                                    lemma_members_push_a(members, a0, b0, p);
                                    assert(team_a@ + team_b@ == a0.push(p) + b0);
                                    assert forall|t: int| 0 <= t < members.len() implies queued(queue@, #[trigger] members[t])
                                        && !used@.contains(members[t]) by {
                                        assert(members[t] == (a0 + b0)[t]);
                                    }
                                }
                            } else {
                                team_b.push(p);
                                proof {
                                    assert forall|s: int| 1 <= s < team_a@.len() + team_b@.len() implies #[trigger] nearest_step(
                                        keys,
                                        queue@,
                                        used@,
                                        team_a@,
                                        team_b@,
                                        s,
                                    ) by {
                                        if s < a0.len() + b0.len() {
                                            assert(team_a@.subrange(0, a0.len() as int) =~= a0);
                                            assert(team_b@.subrange(0, b0.len() as int) =~= b0);
                                            lemma_step_stable(keys, queue@, used@, a0, b0, team_a@, team_b@, s);
                                        }
                                    }
                                    lemma_members_push_b(members, a0, b0, p);
                                    assert(team_a@ + team_b@ == a0 + b0.push(p));
                                    assert forall|t: int| 0 <= t < members.len() implies queued(queue@, #[trigger] members[t])
                                        && !used@.contains(members[t]) by {
                                        assert(members[t] == (a0 + b0)[t]);
                                    }
                                }
                            }
                        },
                        None => {
                            stuck = true;
                            proof {
                                assert(ta@ == team_a@);
                                assert(stuck_at(keys, queue@, used@, team_a@, team_b@));
                                if live {
                                    assert forall|j: int| 0 <= j < n implies used@.contains(
                                        #[trigger] queue@[j].player_id,
                                    ) || members.contains(queue@[j].player_id) by {
                                        if !used@.contains(queue@[j].player_id) && !members.contains(
                                            queue@[j].player_id,
                                        ) {
                                            assert(free_at(queue@, used@, ta@ + team_b@, j));
                                            assert(key_at_least(keys, ta, queue@[j].player_id, u64::MAX));
                                            let k = choose|k: u64|
                                                #[trigger] gives_key(keys, ta, queue@[j].player_id, k) && u64::MAX
                                                    <= k;
                                            assert(k < u64::MAX);
                                        }
                                    }
                                }
                            }
                        },
                    }
                }
                let ghost used_before = used@;
                let ghost att = (team_a@, team_b@);
                let full = team_a.len() == team_size && team_b.len() == team_size;
                used.push(anchor);
                push_all(&mut used, &team_a);
                push_all(&mut used, &team_b);
                proof {
                    assert(used@ =~= used_before + seq![anchor] + team_a@ + team_b@);
                    assert forall|x: PlayerId| used_before.contains(x) implies used@.contains(x) by {
                        let k = choose|k: int| 0 <= k < used_before.len() && used_before[k] == x;
                        assert(used@[k] == x);
                    }
                    assert(used@[used_before.len() as int] == anchor);
                    assert forall|x: PlayerId| (team_a@ + team_b@).contains(x) implies used@.contains(x) by {
                        let t = choose|t: int| 0 <= t < (team_a@ + team_b@).len() && (team_a@ + team_b@)[t] == x;
                        assert(used@[used_before.len() + 1 + t] == x);
                    }
                    assert forall|j: int| 0 <= j < q + 1 implies used@.contains(#[trigger] queue@[j].player_id) by {
                        if j < q {
                            assert(used_before.contains(queue@[j].player_id));
                        }
                    }
                    let old_trace = trace;
                    trace = trace.push(att);
                    assert(trace.drop_last() =~= old_trace);
                    assert(used@ == attempt_players(trace));
                    assert(full_attempts(trace, team_size as nat) == full_attempts(old_trace, team_size as nat) + if full {
                        seq![att]
                    } else {
                        Seq::empty()
                    });
                    assert(first_free_entry(queue@, used_before, q as int));
                    assert(trace.subrange(0, old_trace.len() as int) =~= old_trace);
                    assert(greedy_attempt(keys, queue@, team_size as nat, used_before, att));
                    assert forall|t: int| 0 <= t < trace.len() implies #[trigger] greedy_attempt(
                        keys,
                        queue@,
                        team_size as nat,
                        attempt_players(trace.subrange(0, t)),
                        trace[t],
                    ) by {
                        if t < old_trace.len() {
                            assert(trace.subrange(0, t) =~= old_trace.subrange(0, t));
                        }
                    }
                }
                if full {
                    let m = ProposedMatch { team_a, team_b };
                    let ghost before = matches@;
                    proof {
                        assert(team_views(before.push(m)) =~= team_views(before).push(att));
                        lemma_add_match(before, m, anchor, used_before, used@, queue@, team_size as nat, true);
                        if !failed {
                            lemma_used_grows(before, m, anchor, used_before, used@);
                        }
                    }
                    matches.push(m);
                } else {
                    proof {
                        if live {
                            assert(!failed);
                            assert forall|j: int| 0 <= j < n implies players_of(matches@).contains(
                                #[trigger] queue@[j].player_id,
                            ) || (team_a@ + team_b@).contains(queue@[j].player_id) by {
                                if used_before.contains(queue@[j].player_id) {
                                }
                            }
                        }
                        fail_members = team_a@ + team_b@;
                        failed = true;
                    }
                }
            } else {
                proof {
                    assert forall|j: int| 0 <= j < q + 1 implies used@.contains(#[trigger] queue@[j].player_id) by {}
                }
            }
            q = q + 1;
        }
        proof {
            assert(greedy_run(keys, queue@, team_size as nat, trace));
            if live && failed {
                lemma_unmatched_within(queue@, players_of(matches@), fail_members);
            } else if !failed {
                assert forall|j: int| 0 <= j < queue@.len() implies players_of(matches@).contains(
                    #[trigger] queue@[j].player_id,
                ) by {
                    assert(used@.contains(queue@[j].player_id));
                }
                lemma_unmatched_none(queue@, players_of(matches@));
            }
        }
        matches
    }
}

/// Team A grown by `p`, a player of neither team: the members stay
/// distinct and gain `p`.
proof fn lemma_members_push_a(members: Seq<PlayerId>, a: Seq<PlayerId>, b: Seq<PlayerId>, p: PlayerId)
    requires
        members == a + b,
        all_distinct(members),
        !members.contains(p),
    ensures
        all_distinct(a.push(p) + b),
        forall|t: int| 0 <= t < (a.push(p) + b).len() ==> #[trigger] (a.push(p) + b)[t] == p || members.contains(
            (a.push(p) + b)[t],
        ),
{
    let n = a.push(p) + b;
    assert forall|t: int| 0 <= t < n.len() implies #[trigger] n[t] == p || members.contains(n[t]) by {
        if t < a.len() {
            assert(n[t] == members[t]);
        } else if t > a.len() {
            assert(n[t] == members[t - 1]);
        }
    }
    assert forall|i: int, j: int| 0 <= i < n.len() && 0 <= j < n.len() && i != j implies n[i] != n[j] by {
        let ii = if i < a.len() { i } else { i - 1 };
        let jj = if j < a.len() { j } else { j - 1 };
        if i != a.len() && j != a.len() {
            assert(n[i] == members[ii] && n[j] == members[jj]);
        } else if i == a.len() {
            assert(n[j] == members[jj]);
        } else {
            assert(n[i] == members[ii]);
        }
    }
}

/// Team B grown by `p`, a player of neither team: the members stay
/// distinct and gain `p`.
proof fn lemma_members_push_b(members: Seq<PlayerId>, a: Seq<PlayerId>, b: Seq<PlayerId>, p: PlayerId)
    requires
        members == a + b,
        all_distinct(members),
        !members.contains(p),
    ensures
        all_distinct(a + b.push(p)),
        forall|t: int| 0 <= t < (a + b.push(p)).len() ==> #[trigger] (a + b.push(p))[t] == p || members.contains(
            (a + b.push(p))[t],
        ),
{
    let n = a + b.push(p);
    assert(n =~= members.push(p));
    assert forall|t: int| 0 <= t < n.len() implies #[trigger] n[t] == p || members.contains(n[t]) by {
        if t < members.len() {
            assert(n[t] == members[t]);
        }
    }
}

/// Whether `beam` holds a pair with a team short of `k` players.
fn any_incomplete(beam: &Vec<Partial>, k: usize) -> (r: bool)
    ensures
        r == exists|i: int|
            0 <= i < beam@.len() && ((#[trigger] beam@[i]).a@.len() < k || beam@[i].b@.len() < k),
{
    let mut i: usize = 0;
    while i < beam.len()
        invariant
            i <= beam@.len(),
            forall|j: int| 0 <= j < i ==> !((#[trigger] beam@[j]).a@.len() < k || beam@[j].b@.len() < k),
        decreases beam@.len() - i,
    {
        if beam[i].a.len() < k || beam[i].b.len() < k {
            return true;
        }
        i = i + 1;
    }
    false
}

/// The two teams of a partial pair.
pub open spec fn pair_of(p: Partial) -> (Seq<PlayerId>, Seq<PlayerId>) {
    (p.a@, p.b@)
}

/// The teams of each partial pair of a beam.
pub open spec fn beam_pairs(beam: Seq<Partial>) -> Seq<(Seq<PlayerId>, Seq<PlayerId>)> {
    beam.map_values(|p: Partial| pair_of(p))
}

/// `pr` grown by `x`: on team A when the teams are even, else on team B.
pub open spec fn grow_pair(pr: (Seq<PlayerId>, Seq<PlayerId>), x: PlayerId) -> (Seq<PlayerId>, Seq<PlayerId>) {
    if pr.0.len() <= pr.1.len() {
        (pr.0.push(x), pr.1)
    } else {
        (pr.0, pr.1.push(x))
    }
}

/// `x` may join `pr`: it is not the anchor, not on either team, not used.
pub open spec fn may_join(
    pr: (Seq<PlayerId>, Seq<PlayerId>),
    used: Seq<PlayerId>,
    anchor: PlayerId,
    x: PlayerId,
) -> bool {
    x != anchor && !pr.0.contains(x) && !pr.1.contains(x) && !used.contains(x)
}

/// `pr` grown by each player of `queue` that may join it, in queue order.
pub open spec fn expand_pair(
    pr: (Seq<PlayerId>, Seq<PlayerId>),
    queue: Seq<QueueEntry>,
    used: Seq<PlayerId>,
    anchor: PlayerId,
) -> Seq<(Seq<PlayerId>, Seq<PlayerId>)>
    decreases queue.len(),
{
    if queue.len() == 0 {
        Seq::empty()
    } else {
        expand_pair(pr, queue.drop_last(), used, anchor) + if may_join(pr, used, anchor, queue.last().player_id) {
            seq![grow_pair(pr, queue.last().player_id)]
        } else {
            Seq::empty()
        }
    }
}

/// The expansions of every pair of `beam`, pair by pair.
pub open spec fn expand_beam(
    beam: Seq<(Seq<PlayerId>, Seq<PlayerId>)>,
    queue: Seq<QueueEntry>,
    used: Seq<PlayerId>,
    anchor: PlayerId,
) -> Seq<(Seq<PlayerId>, Seq<PlayerId>)>
    decreases beam.len(),
{
    if beam.len() == 0 {
        Seq::empty()
    } else {
        expand_beam(beam.drop_last(), queue, used, anchor) + expand_pair(beam.last(), queue, used, anchor)
    }
}

/// The first `n` of `next` in the order `perm`.
pub open spec fn kept_top(
    next: Seq<(Seq<PlayerId>, Seq<PlayerId>)>,
    perm: Seq<usize>,
    n: nat,
) -> Seq<(Seq<PlayerId>, Seq<PlayerId>)> {
    Seq::new(n, |i: int| next[perm[i] as int])
}

/// One round: every pair of `beam` is expanded, `scorer` keys each
/// expansion, and `kept` is the first `width` of them by descending key,
/// equal keys in expansion order.
pub open spec fn beam_round<S: MatchScorer>(
    scorer: &S,
    queue: Seq<QueueEntry>,
    used: Seq<PlayerId>,
    anchor: PlayerId,
    width: nat,
    beam: Seq<(Seq<PlayerId>, Seq<PlayerId>)>,
    kept: Seq<(Seq<PlayerId>, Seq<PlayerId>)>,
) -> bool {
    let next = expand_beam(beam, queue, used, anchor);
    exists|keys: Seq<u64>, perm: Seq<usize>|
        #[trigger] is_stable_order(keys, true, perm) && keys.len() == next.len() && (forall|i: int|
            0 <= i < next.len() ==> scored_as(scorer, next[i].0, next[i].1, #[trigger] keys[i])) && kept
            == kept_top(next, perm, if width < next.len() { width } else { next.len() })
}

/// Some pair of `beam` is short of players.
pub open spec fn some_short(beam: Seq<(Seq<PlayerId>, Seq<PlayerId>)>, k: nat) -> bool {
    exists|i: int| 0 <= i < beam.len() && ((#[trigger] beam[i]).0.len() < k || beam[i].1.len() < k)
}

/// Round `r` of `beams` follows a beam with a short pair.
pub open spec fn round_step<S: MatchScorer>(
    scorer: &S,
    queue: Seq<QueueEntry>,
    used: Seq<PlayerId>,
    anchor: PlayerId,
    k: nat,
    width: nat,
    beams: Seq<Seq<(Seq<PlayerId>, Seq<PlayerId>)>>,
    r: int,
) -> bool {
    some_short(beams[r], k) && beam_round(scorer, queue, used, anchor, width, beams[r], beams[r + 1])
}

/// A run of rounds from `anchor` alone: each round follows a beam with a
/// short pair, and the run ends with no beam (no match) or with a beam of
/// full pairs, whose first pair is the match.
pub open spec fn beam_run<S: MatchScorer>(
    scorer: &S,
    queue: Seq<QueueEntry>,
    used: Seq<PlayerId>,
    anchor: PlayerId,
    k: nat,
    width: nat,
    beams: Seq<Seq<(Seq<PlayerId>, Seq<PlayerId>)>>,
    res: Option<ProposedMatch>,
) -> bool {
    &&& beams.len() >= 1
    &&& beams[0] == seq![(seq![anchor], Seq::<PlayerId>::empty())]
    &&& forall|r: int|
        0 <= r < beams.len() - 1 ==> #[trigger] round_step(scorer, queue, used, anchor, k, width, beams, r)
    &&& match res {
        None => beams.last().len() == 0,
        Some(m) => beams.last().len() > 0 && !some_short(beams.last(), k) && (m.team_a@, m.team_b@)
            == beams.last()[0],
    }
}

/// What growing pairs from `anchor` can give.
pub open spec fn beam_outcome<S: MatchScorer>(
    scorer: &S,
    queue: Seq<QueueEntry>,
    used: Seq<PlayerId>,
    anchor: PlayerId,
    k: nat,
    width: nat,
    res: Option<ProposedMatch>,
) -> bool {
    exists|beams: Seq<Seq<(Seq<PlayerId>, Seq<PlayerId>)>>|
        #[trigger] beam_run(scorer, queue, used, anchor, k, width, beams, res)
}

/// Entry `j` lies between the anchors of match `i - 1` and match `i`
/// (after the last anchor when `i` is the number of matches).
pub open spec fn in_gap(js: Seq<int>, i: int, j: int) -> bool {
    &&& 0 <= i <= js.len()
    &&& (i == 0 || js[i - 1] < j)
    &&& (i == js.len() || j < js[i])
}

/// Match `i` of `res` grows from the entry `js[i]`, whose player is free of
/// the matches before it.
pub open spec fn anchored_match<S: MatchScorer>(
    scorer: &S,
    queue: Seq<QueueEntry>,
    k: nat,
    width: nat,
    res: Seq<ProposedMatch>,
    js: Seq<int>,
    i: int,
) -> bool {
    let matched = players_of(res.subrange(0, i));
    !matched.contains(queue[js[i]].player_id) && beam_outcome(
        scorer,
        queue,
        matched,
        queue[js[i]].player_id,
        k,
        width,
        Some(res[i]),
    )
}

/// The beam search's matches `res` with anchors at the entries `js`: each
/// anchor is free of the matches before it and grows its match, and every
/// other entry free of the matches before it grows none.
pub open spec fn beam_trace<S: MatchScorer>(
    scorer: &S,
    queue: Seq<QueueEntry>,
    k: nat,
    width: nat,
    res: Seq<ProposedMatch>,
    js: Seq<int>,
) -> bool {
    &&& js.len() == res.len()
    &&& forall|i: int| 0 <= i < js.len() ==> 0 <= #[trigger] js[i] < queue.len()
    &&& forall|i: int, i2: int| 0 <= i < i2 < js.len() ==> #[trigger] js[i] < #[trigger] js[i2]
    &&& forall|i: int| 0 <= i < res.len() ==> #[trigger] anchored_match(scorer, queue, k, width, res, js, i)
    &&& forall|i: int, j: int|
        0 <= j < queue.len() && #[trigger] in_gap(js, i, j) && !players_of(res.subrange(0, i)).contains(
            #[trigger] queue[j].player_id,
        ) ==> beam_outcome(scorer, queue, players_of(res.subrange(0, i)), queue[j].player_id, k, width, None)
}

/// Two lists with the same members give every pair the same expansions.
proof fn lemma_expand_congruent(
    beam: Seq<(Seq<PlayerId>, Seq<PlayerId>)>,
    queue: Seq<QueueEntry>,
    u1: Seq<PlayerId>,
    u2: Seq<PlayerId>,
    anchor: PlayerId,
)
    requires
        forall|x: PlayerId| u1.contains(x) <==> u2.contains(x),
    ensures
        expand_beam(beam, queue, u1, anchor) == expand_beam(beam, queue, u2, anchor),
    decreases beam.len(),
{
    if beam.len() > 0 {
        lemma_expand_congruent(beam.drop_last(), queue, u1, u2, anchor);
        lemma_expand_pair_congruent(beam.last(), queue, u1, u2, anchor);
    }
}

proof fn lemma_expand_pair_congruent(
    pr: (Seq<PlayerId>, Seq<PlayerId>),
    queue: Seq<QueueEntry>,
    u1: Seq<PlayerId>,
    u2: Seq<PlayerId>,
    anchor: PlayerId,
)
    requires
        forall|x: PlayerId| u1.contains(x) <==> u2.contains(x),
    ensures
        expand_pair(pr, queue, u1, anchor) == expand_pair(pr, queue, u2, anchor),
    decreases queue.len(),
{
    if queue.len() > 0 {
        lemma_expand_pair_congruent(pr, queue.drop_last(), u1, u2, anchor);
    }
}

/// What growing pairs can give depends on the used players only through
/// their membership.
proof fn lemma_outcome_congruent<S: MatchScorer>(
    scorer: &S,
    queue: Seq<QueueEntry>,
    u1: Seq<PlayerId>,
    u2: Seq<PlayerId>,
    anchor: PlayerId,
    k: nat,
    width: nat,
    res: Option<ProposedMatch>,
)
    requires
        forall|x: PlayerId| u1.contains(x) <==> u2.contains(x),
        beam_outcome(scorer, queue, u1, anchor, k, width, res),
    ensures
        beam_outcome(scorer, queue, u2, anchor, k, width, res),
{
    let beams = choose|beams: Seq<Seq<(Seq<PlayerId>, Seq<PlayerId>)>>|
        #[trigger] beam_run(scorer, queue, u1, anchor, k, width, beams, res);
    assert forall|r: int| 0 <= r < beams.len() - 1 implies #[trigger] round_step(
        scorer,
        queue,
        u2,
        anchor,
        k,
        width,
        beams,
        r,
    ) by {
        assert(round_step(scorer, queue, u1, anchor, k, width, beams, r));
        lemma_expand_congruent(beams[r], queue, u1, u2, anchor);
    }
    assert(beam_run(scorer, queue, u2, anchor, k, width, beams, res));
}

/// Beam search: keeps the `width` best-scored partial pairs, grows each by
/// one player per round.
#[derive(Debug, Clone, Copy)]
pub struct BeamSearch {
    pub width: usize,
}

impl BeamSearch {
    /// For each queue entry not yet matched (in queue order) as anchor:
    /// starts from the anchor alone on team A, repeatedly grows every pair by
    /// each available player (team A when the teams are even, else team B),
    /// keeps the `width` best-scored pairs (ties keep generation order), and
    /// forms the first complete pair once no pair is short of players. Every
    /// match has two teams of `team_size`, no player is used twice, and
    /// every player comes from the queue. With a width of at least one and
    /// no player queued twice, the search leaves fewer than
    /// `2 * team_size` entries unmatched.
    pub fn search<S: MatchScorer>(&self, queue: &[QueueEntry], scorer: &S, team_size: usize) -> (res:
        Vec<ProposedMatch>)
        requires
            2 * team_size <= usize::MAX,
        ensures
            valid_matches(res@, queue@, team_size as nat),
            self.width >= 1 && team_size > 0 && distinct_players(queue@) ==> unmatched_count(
                queue@,
                players_of(res@),
            ) < 2 * team_size,
            self.width == 0 ==> res@.len() == 0,
            team_size > 0 ==> exists|js: Seq<int>|
                #[trigger] beam_trace(scorer, queue@, team_size as nat, self.width as nat, res@, js),
    {
        let mut matches: Vec<ProposedMatch> = Vec::new();
        if team_size == 0 {
            return matches;
        }
        let ghost live = self.width >= 1 && distinct_players(queue@);
        let ghost mut failed = false;
        let ghost k = team_size as nat;
        let ghost width = self.width as nat;
        let ghost mut js: Seq<int> = Seq::empty();
        let mut used: Vec<PlayerId> = Vec::new();
        let mut q: usize = 0;
        while q < queue.len()
            invariant
                q <= queue@.len(),
                team_size > 0,
                2 * team_size <= usize::MAX,
                live == (self.width >= 1 && distinct_players(queue@)),
                valid_matches(matches@, queue@, team_size as nat),
                forall|i: int| 0 <= i < players_of(matches@).len() ==> used@.contains(
                    #[trigger] players_of(matches@)[i],
                ),
                forall|x: PlayerId| used@.contains(x) ==> players_of(matches@).contains(x),
                forall|j: int| 0 <= j < q ==> used@.contains(#[trigger] queue@[j].player_id) || failed,
                live && failed ==> unmatched_count(queue@, used@) < 2 * team_size,
                self.width == 0 ==> matches@.len() == 0,
                k == team_size,
                width == self.width,
                js.len() == matches@.len(),
                forall|i: int| 0 <= i < js.len() ==> 0 <= #[trigger] js[i] < q,
                forall|i: int, i2: int| 0 <= i < i2 < js.len() ==> #[trigger] js[i] < #[trigger] js[i2],
                forall|i: int|
                    0 <= i < matches@.len() ==> #[trigger] anchored_match(scorer, queue@, k, width, matches@, js, i),
                forall|i: int, j: int|
                    0 <= j < q && #[trigger] in_gap(js, i, j) && !players_of(matches@.subrange(0, i)).contains(
                        #[trigger] queue@[j].player_id,
                    ) ==> beam_outcome(scorer, queue@, players_of(matches@.subrange(0, i)), queue@[j].player_id, k, width, None),
            decreases queue@.len() - q,
        {
            let anchor = queue[q].player_id;
            proof {
                assert(matches@.subrange(0, matches@.len() as int) =~= matches@);
                assert forall|x: PlayerId| used@.contains(x) <==> players_of(matches@).contains(x) by {
                    if players_of(matches@).contains(x) {
                        let i = choose|i: int| 0 <= i < players_of(matches@).len() && players_of(matches@)[i] == x;
                        assert(used@.contains(players_of(matches@)[i]));
                    }
                }
            }
            if !contains_player(&used, anchor) {
                let ghost used_before = used@;
                proof {
                    assert(queued(queue@, anchor)) by {
                        assert(queue@[q as int].player_id == anchor);
                    }
                }
                let formed = self.grow(queue, scorer, team_size, anchor, &used);
                proof {
                    lemma_outcome_congruent(scorer, queue@, used_before, players_of(matches@), anchor, k, width, formed);
                }
                match formed {
                    Some(m) => {
                        let ghost before = matches@;
                        let ghost old_js = js;
                        used.push(anchor);
                        push_all(&mut used, &m.team_a);
                        push_all(&mut used, &m.team_b);
                        matches.push(m);
                        proof {
                            assert(used@ =~= used_before + seq![anchor] + m.team_a@ + m.team_b@);
                            lemma_add_match(before, m, anchor, used_before, used@, queue@, team_size as nat, true);
                            lemma_used_grows(before, m, anchor, used_before, used@);
                            assert(used@[used_before.len() as int] == anchor);
                            assert(used@.contains(anchor));
                            assert forall|x: PlayerId| used_before.contains(x) implies used@.contains(x) by {
                                let k = choose|k: int| 0 <= k < used_before.len() && used_before[k] == x;
                                assert(used@[k] == x);
                            }
                            lemma_unmatched_mono(queue@, used_before, used@);
                            js = js.push(q as int);
                            let n = before.len() as int;
                            assert(matches@.subrange(0, n) =~= before);
                            assert(before.subrange(0, n) =~= before);
                            assert forall|i: int| 0 <= i < matches@.len() implies #[trigger] anchored_match(
                                scorer,
                                queue@,
                                k,
                                width,
                                matches@,
                                js,
                                i,
                            ) by {
                                if i < n {
                                    assert(matches@.subrange(0, i) =~= before.subrange(0, i));
                                    assert(anchored_match(scorer, queue@, k, width, before, old_js, i));
                                } else {
                                    assert(queue@[js[i]].player_id == anchor);
                                }
                            }
                            assert forall|i: int, j: int|
                                0 <= j < q + 1 && #[trigger] in_gap(js, i, j) && !players_of(matches@.subrange(0, i)).contains(
                                    #[trigger] queue@[j].player_id,
                                ) implies beam_outcome(
                                scorer,
                                queue@,
                                players_of(matches@.subrange(0, i)),
                                queue@[j].player_id,
                                k,
                                width,
                                None,
                            ) by {
                                if i <= n {
                                    assert(in_gap(old_js, i, j));
                                    assert(matches@.subrange(0, i) =~= before.subrange(0, i));
                                }
                            }
                        }
                    },
                    None => {
                        proof {
                            if live {
                                lemma_unmatched_split(queue@, used@, anchor);
                            }
                            failed = true;
                            assert forall|i: int, j: int|
                                0 <= j < q + 1 && #[trigger] in_gap(js, i, j) && !players_of(matches@.subrange(0, i)).contains(
                                    #[trigger] queue@[j].player_id,
                                ) implies beam_outcome(
                                scorer,
                                queue@,
                                players_of(matches@.subrange(0, i)),
                                queue@[j].player_id,
                                k,
                                width,
                                None,
                            ) by {
                                if j == q {
                                    if i < js.len() {
                                        assert(js[i] < q);
                                    }
                                    assert(i == js.len());
                                }
                            }
                        }
                    },
                }
            } else {
                proof {
                    assert forall|i: int, j: int|
                        0 <= j < q + 1 && #[trigger] in_gap(js, i, j) && !players_of(matches@.subrange(0, i)).contains(
                            #[trigger] queue@[j].player_id,
                        ) implies beam_outcome(
                        scorer,
                        queue@,
                        players_of(matches@.subrange(0, i)),
                        queue@[j].player_id,
                        k,
                        width,
                        None,
                    ) by {
                        if j == q {
                            if i < js.len() {
                                assert(js[i] < q);
                            }
                            assert(i == js.len());
                        }
                    }
                }
            }
            q = q + 1;
        }
        proof {
            assert(beam_trace(scorer, queue@, k, width, matches@, js));
        }
        proof {
            assert forall|x: PlayerId| used@.contains(x) <==> players_of(matches@).contains(x) by {
                if players_of(matches@).contains(x) {
                    let i = choose|i: int| 0 <= i < players_of(matches@).len() && players_of(matches@)[i] == x;
                    assert(used@.contains(players_of(matches@)[i]));
                }
            }
            lemma_unmatched_same(queue@, used@, players_of(matches@));
            if !failed {
                lemma_unmatched_none(queue@, used@);
            }
        }
        matches
    }

    /// Grows pairs from `anchor` and returns the first complete pair, if
    /// any; no player of it is in `used`, and its team A starts with the
    /// anchor. With a width of at least one and a queue in which no player
    /// has two entries, a pair is formed whenever at least
    /// `2 * team_size - 1` entries are free besides the anchor.
    fn grow<S: MatchScorer>(
        &self,
        queue: &[QueueEntry],
        scorer: &S,
        team_size: usize,
        anchor: PlayerId,
        used: &Vec<PlayerId>,
    ) -> (res: Option<ProposedMatch>)
        requires
            team_size > 0,
            2 * team_size <= usize::MAX,
            queued(queue@, anchor),
            !used@.contains(anchor),
        ensures
            res matches Some(m) ==> m.team_a@.len() == team_size && m.team_b@.len() == team_size
                && m.team_a@[0] == anchor
                && all_distinct(m.team_a@ + m.team_b@) && (forall|i: int|
                0 <= i < (m.team_a@ + m.team_b@).len() ==> queued(queue@, #[trigger] (m.team_a@ + m.team_b@)[i]))
                && (forall|i: int|
                0 <= i < (m.team_a@ + m.team_b@).len() ==> !used@.contains(#[trigger] (m.team_a@ + m.team_b@)[i])),
            self.width >= 1 && distinct_players(queue@) && free_count(queue@, used@, anchor) + 1 >= 2 * team_size
                ==> res is Some,
            self.width == 0 ==> res is None,
            beam_outcome(scorer, queue@, used@, anchor, team_size as nat, self.width as nat, res),
    {
        let ghost live = self.width >= 1 && distinct_players(queue@) && free_count(queue@, used@, anchor) + 1 >= 2
            * team_size;
        let ghost k = team_size as nat;
        let ghost width = self.width as nat;
        let mut first_a: Vec<PlayerId> = Vec::new();
        first_a.push(anchor);
        let start = Partial { a: first_a, b: Vec::new() };
        proof {
            assert(members(start) =~= seq![anchor]);
        }
        let mut beam: Vec<Partial> = Vec::new();
        beam.push(start);
        let ghost mut t: nat = 1;
        let ghost mut beams: Seq<Seq<(Seq<PlayerId>, Seq<PlayerId>)>> = seq![beam_pairs(beam@)];
        proof {
            assert(beam@[0].a@ =~= seq![anchor]);
            assert(beam@[0].b@ =~= Seq::<PlayerId>::empty());
            assert(beam_pairs(beam@) =~= seq![(seq![anchor], Seq::<PlayerId>::empty())]);
        }
        while any_incomplete(&beam, team_size)
            invariant
                1 <= t <= 2 * team_size,
                team_size > 0,
                2 * team_size <= usize::MAX,
                !used@.contains(anchor),
                beam@.len() > 0,
                live == (self.width >= 1 && distinct_players(queue@) && free_count(queue@, used@, anchor) + 1 >= 2
                    * team_size),
                forall|i: int|
                    0 <= i < beam@.len() ==> good_partial(#[trigger] beam@[i], anchor, used@, queue@, t),
                self.width == 0 ==> beam@.len() == 1 && beam@[0].b@.len() == 0,
                k == team_size,
                width == self.width,
                beams.len() >= 1,
                beams[0] == seq![(seq![anchor], Seq::<PlayerId>::empty())],
                beams.last() == beam_pairs(beam@),
                forall|r: int|
                    0 <= r < beams.len() - 1 ==> #[trigger] round_step(scorer, queue@, used@, anchor, k, width, beams, r),
            decreases 2 * team_size - t,
        {
            proof {
                let i = choose|i: int|
                    0 <= i < beam@.len() && ((#[trigger] beam@[i]).a@.len() < team_size
                        || beam@[i].b@.len() < team_size);
                assert(good_partial(beam@[i], anchor, used@, queue@, t));
                assert(t < 2 * team_size);
                assert(beam_pairs(beam@)[i] == pair_of(beam@[i]));
                assert(some_short(beam_pairs(beam@), k));
            }
            let ghost bp = beam_pairs(beam@);
            // when live, some entry can grow the first pair
            let ghost p0 = beam@[0];
            let ghost extra = p0.a@.drop_first() + p0.b@;
            let ghost c0: int = if live {
                choose|j: int|
                    0 <= j < queue@.len() && !(used@ + extra).contains(#[trigger] queue@[j].player_id) && queue@[j].player_id
                        != anchor
            } else {
                0
            };
            proof {
                if live {
                    assert(good_partial(p0, anchor, used@, queue@, t));
                    lemma_free_extra(queue@, used@, extra, anchor);
                    lemma_free_witness(queue@, used@ + extra, anchor);
                    let x = queue@[c0].player_id;
                    assert(!used@.contains(x)) by {
                        if used@.contains(x) {
                            let k = choose|k: int| 0 <= k < used@.len() && used@[k] == x;
                            assert((used@ + extra)[k] == x);
                        }
                    }
                    assert(!p0.a@.contains(x)) by {
                        if p0.a@.contains(x) {
                            let k = choose|k: int| 0 <= k < p0.a@.len() && p0.a@[k] == x;
                            assert(k != 0);
                            assert((used@ + extra)[used@.len() + k - 1] == x);
                        }
                    }
                    assert(!p0.b@.contains(x)) by {
                        if p0.b@.contains(x) {
                            let k = choose|k: int| 0 <= k < p0.b@.len() && p0.b@[k] == x;
                            assert((used@ + extra)[used@.len() + p0.a@.len() - 1 + k] == x);
                        }
                    }
                }
            }
            let mut next: Vec<Partial> = Vec::new();
            let mut bi: usize = 0;
            while bi < beam.len()
                invariant
                    bi <= beam@.len(),
                    beam@.len() > 0,
                    t < 2 * team_size,
                    p0 == beam@[0],
                    live ==> 0 <= c0 < queue@.len() && queue@[c0].player_id != anchor && !used@.contains(
                        queue@[c0].player_id,
                    ) && !p0.a@.contains(queue@[c0].player_id) && !p0.b@.contains(queue@[c0].player_id),
                    live ==> (bi > 0 ==> next@.len() > 0),
                    forall|i: int|
                        0 <= i < beam@.len() ==> good_partial(#[trigger] beam@[i], anchor, used@, queue@, t),
                    forall|i: int|
                        0 <= i < next@.len() ==> good_partial(#[trigger] next@[i], anchor, used@, queue@, t + 1),
                    bp == beam_pairs(beam@),
                    beam_pairs(next@) == expand_beam(bp.subrange(0, bi as int), queue@, used@, anchor),
                decreases beam@.len() - bi,
            {
                let p = &beam[bi];
                proof {
                    assert(good_partial(*p, anchor, used@, queue@, t));
                }
                let mut c: usize = 0;
                while c < queue.len()
                    invariant
                        c <= queue@.len(),
                        *p == beam@[bi as int],
                        p0 == beam@[0],
                        live ==> 0 <= c0 < queue@.len() && queue@[c0].player_id != anchor && !used@.contains(
                            queue@[c0].player_id,
                        ) && !p0.a@.contains(queue@[c0].player_id) && !p0.b@.contains(queue@[c0].player_id),
                        live ==> (bi > 0 ==> next@.len() > 0),
                        live && bi == 0 ==> (c > c0 ==> next@.len() > 0),
                        good_partial(*p, anchor, used@, queue@, t),
                        forall|i: int|
                            0 <= i < next@.len() ==> good_partial(#[trigger] next@[i], anchor, used@, queue@, t + 1),
                        bi < beam@.len(),
                        bp == beam_pairs(beam@),
                        beam_pairs(next@) == expand_beam(bp.subrange(0, bi as int), queue@, used@, anchor) + expand_pair(
                            pair_of(*p),
                            queue@.subrange(0, c as int),
                            used@,
                            anchor,
                        ),
                    decreases queue@.len() - c,
                {
                    let cand = queue[c].player_id;
                    let ghost pre = beam_pairs(next@);
                    proof {
                        assert(queue@.subrange(0, c as int + 1).drop_last() =~= queue@.subrange(0, c as int));
                        assert(queue@.subrange(0, c as int + 1).last() == queue@[c as int]);
                    }
                    if cand != anchor && !contains_player(&p.a, cand) && !contains_player(&p.b, cand)
                        && !contains_player(used, cand) {
                        let grown = extend(p, cand);
                        proof {
                            assert(queued(queue@, cand)) by {
                                assert(queue@[c as int].player_id == cand);
                            }
                            assert(!members(*p).contains(cand)) by {
                                if members(*p).contains(cand) {
                                    let j = choose|j: int| 0 <= j < members(*p).len() && members(*p)[j] == cand;
                                    if j < p.a@.len() {
                                        assert(p.a@[j] == cand);
                                    } else {
                                        assert(p.b@[j - p.a@.len()] == cand);
                                    }
                                }
                            }
                            lemma_extend_good(*p, grown, cand, anchor, used@, queue@, t);
                            assert(may_join(pair_of(*p), used@, anchor, cand));
                        }
                        next.push(grown);
                        proof {
                            assert(beam_pairs(next@) =~= pre.push(pair_of(grown)));
                            assert(pair_of(grown) == grow_pair(pair_of(*p), cand));
                        }
                    } else {
                        proof {
                            assert(!may_join(pair_of(*p), used@, anchor, cand));
                        }
                    }
                    c = c + 1;
                }
                proof {
                    assert(queue@.subrange(0, queue@.len() as int) =~= queue@);
                    assert(bp.subrange(0, bi as int + 1).drop_last() =~= bp.subrange(0, bi as int));
                    assert(bp.subrange(0, bi as int + 1).last() == pair_of(beam@[bi as int]));
                }
                bi = bi + 1;
            }
            proof {
                assert(bp.subrange(0, bp.len() as int) =~= bp);
            }
            let ghost np = beam_pairs(next@);
            // keep the `width` best, ties in generation order
            let mut keys: Vec<u64> = Vec::new();
            let mut ki: usize = 0;
            while ki < next.len()
                invariant
                    ki <= next@.len(),
                    keys@.len() == ki,
                    np == beam_pairs(next@),
                    forall|i: int| 0 <= i < ki ==> scored_as(scorer, np[i].0, np[i].1, #[trigger] keys@[i]),
                decreases next@.len() - ki,
            {
                let sa = next[ki].a.as_slice();
                let sb = next[ki].b.as_slice();
                let key = scorer.score_key(sa, sb);
                proof {
                    assert(call_ensures(S::score_key, (scorer, sa, sb), key));
                    assert(np[ki as int] == pair_of(next@[ki as int]));
                    assert(scored_as(scorer, np[ki as int].0, np[ki as int].1, key));
                }
                keys.push(key);
                ki = ki + 1;
            }
            let order = stable_order(keys.as_slice(), true);
            let keep = if self.width < order.len() {
                self.width
            } else {
                order.len()
            };
            let mut kept: Vec<Partial> = Vec::new();
            let mut oi: usize = 0;
            while oi < keep
                invariant
                    oi <= keep,
                    kept@.len() == oi,
                    keep <= order@.len(),
                    order@.len() == next@.len(),
                    forall|i: int| 0 <= i < order@.len() ==> #[trigger] order@[i] < next@.len(),
                    forall|i: int|
                        0 <= i < next@.len() ==> good_partial(#[trigger] next@[i], anchor, used@, queue@, t + 1),
                    forall|i: int|
                        0 <= i < kept@.len() ==> good_partial(#[trigger] kept@[i], anchor, used@, queue@, t + 1),
                    np == beam_pairs(next@),
                    beam_pairs(kept@) == kept_top(np, order@, oi as nat),
                decreases keep - oi,
            {
                let src = &next[order[oi]];
                let copy = Partial { a: copy_ids(&src.a), b: copy_ids(&src.b) };
                proof {
                    assert(good_partial(next@[order@[oi as int] as int], anchor, used@, queue@, t + 1));
                    assert(members(copy) == members(*src));
                }
                let ghost pre = beam_pairs(kept@);
                kept.push(copy);
                proof {
                    assert(pair_of(copy) == np[order@[oi as int] as int]);
                    assert(beam_pairs(kept@) =~= pre.push(pair_of(copy)));
                    assert(kept_top(np, order@, (oi + 1) as nat) =~= kept_top(np, order@, oi as nat).push(
                        np[order@[oi as int] as int],
                    ));
                }
                oi = oi + 1;
            }
            proof {
                assert(beam_round(scorer, queue@, used@, anchor, width, bp, beam_pairs(kept@)));
                let old_beams = beams;
                beams = beams.push(beam_pairs(kept@));
                assert(round_step(scorer, queue@, used@, anchor, k, width, beams, old_beams.len() - 1));
                assert forall|r: int| 0 <= r < beams.len() - 1 implies #[trigger] round_step(
                    scorer,
                    queue@,
                    used@,
                    anchor,
                    k,
                    width,
                    beams,
                    r,
                ) by {
                    if r < old_beams.len() - 1 {
                        assert(round_step(scorer, queue@, used@, anchor, k, width, old_beams, r));
                        assert(beams[r] == old_beams[r] && beams[r + 1] == old_beams[r + 1]);
                    }
                }
            }
            if kept.len() == 0 {
                proof {
                    assert(beam_run(scorer, queue@, used@, anchor, k, width, beams, None));
                }
                return None;
            }
            beam = kept;
            proof {
                t = t + 1;
            }
        }
        proof {
            if self.width == 0 {
                assert(!((beam@[0]).a@.len() < team_size || beam@[0].b@.len() < team_size));
                assert(false);
            }
        }
        // no pair is short, so every pair is full and the first one is kept
        let m = ProposedMatch { team_a: copy_ids(&beam[0].a), team_b: copy_ids(&beam[0].b) };
        proof {
            assert(good_partial(beam@[0], anchor, used@, queue@, t));
            assert(!((beam@[0]).a@.len() < team_size || beam@[0].b@.len() < team_size));
            assert(m.team_a@ + m.team_b@ == members(beam@[0]));
            assert(beam_pairs(beam@)[0] == pair_of(beam@[0]));
            assert forall|i: int| 0 <= i < beam_pairs(beam@).len() implies !((#[trigger] beam_pairs(beam@)[i]).0.len()
                < k || beam_pairs(beam@)[i].1.len() < k) by {
                assert(beam_pairs(beam@)[i] == pair_of(beam@[i]));
            }
            assert(beam_run(scorer, queue@, used@, anchor, k, width, beams, Some(m)));
        }
        Some(m)
    }
}

/// A player the sampler may still draw for `anchor`: queued, not used, not
/// the anchor.
pub open spec fn drawable(queue: Seq<QueueEntry>, used: Seq<PlayerId>, anchor: PlayerId, x: PlayerId) -> bool {
    queued(queue, x) && !used.contains(x) && x != anchor
}

/// Moving `pool[idx]` to the end of `members` keeps every player in one
/// place.
proof fn lemma_draw(members: Seq<PlayerId>, pool: Seq<PlayerId>, idx: int)
    requires
        0 <= idx < pool.len(),
        all_distinct(members),
        all_distinct(pool),
        forall|i: int| 0 <= i < pool.len() ==> !members.contains(#[trigger] pool[i]),
    ensures
        all_distinct(members.push(pool[idx])),
        all_distinct(pool.remove(idx)),
        forall|i: int|
            0 <= i < pool.remove(idx).len() ==> !members.push(pool[idx]).contains(#[trigger] pool.remove(idx)[i]),
{
    let x = pool[idx];
    let np = pool.remove(idx);
    let nm = members.push(x);
    assert(!members.contains(x));
    assert forall|i: int, j: int| 0 <= i < nm.len() && 0 <= j < nm.len() && i != j implies nm[i] != nm[j] by {
        if i < members.len() && j < members.len() {
        } else if i < members.len() {
            assert(nm[i] == members[i]);
        } else if j < members.len() {
            assert(nm[j] == members[j]);
        }
    }
    assert forall|i: int| 0 <= i < np.len() implies #[trigger] np[i] == pool[if i < idx { i } else { i + 1 }] by {}
    assert forall|i: int, j: int| 0 <= i < np.len() && 0 <= j < np.len() && i != j implies np[i] != np[j] by {
        assert(np[i] == pool[if i < idx { i } else { i + 1 }]);
        assert(np[j] == pool[if j < idx { j } else { j + 1 }]);
    }
    assert forall|i: int| 0 <= i < np.len() implies !nm.contains(#[trigger] np[i]) by {
        let oi = if i < idx { i } else { i + 1 };
        assert(np[i] == pool[oi]);
        assert(oi != idx);
        if nm.contains(np[i]) {
            let j = choose|j: int| 0 <= j < nm.len() && nm[j] == np[i];
            if j < members.len() {
                assert(members[j] == pool[oi]);
                assert(members.contains(pool[oi]));
            }
        }
    }
}

/// Random sampling: for each anchor, draws `samples` random compositions
/// and keeps the best-scored one.
#[derive(Debug, Clone, Copy)]
pub struct RandomSamplingSearch {
    pub samples: usize,
}

impl RandomSamplingSearch {
    /// For each queue entry not yet used (in queue order) as anchor: marks
    /// the anchor used, then up to `samples` times draws a composition (the
    /// anchor first on team A, then players drawn at random from the queue
    /// entries whose player is not yet used, team A filled before team B;
    /// sampling stops when fewer than `2 * team_size - 1` such entries
    /// remain) and keeps the first best-scored one, which becomes a match; a
    /// composition keyed 0 (a score of minus infinity, or no number) is never
    /// kept. Every match has two teams of `team_size` queue players; when no
    /// player is queued twice, no player is in two places, and with at least
    /// one sample and a scorer that never returns 0 the search leaves fewer
    /// than `2 * team_size` entries unmatched.
    pub fn search<S: MatchScorer>(
        &self,
        queue: &[QueueEntry],
        scorer: &S,
        team_size: usize,
        rng: &mut SimRng,
    ) -> (res: Vec<ProposedMatch>)
        requires
            team_size > 0,
            2 * team_size <= usize::MAX,
        ensures
            matches_from_queue(res@, queue@, team_size as nat),
            distinct_players(queue@) ==> all_distinct(players_of(res@)),
            self.samples >= 1 && distinct_players(queue@) && keys_positive(scorer) ==> unmatched_count(
                queue@,
                players_of(res@),
            ) < 2 * team_size,
            self.samples == 0 ==> res@.len() == 0 && final(rng)@ == old(rng)@,
            exists|atts: Seq<(PlayerId, Option<ProposedMatch>)>, states: Seq<Seq<Draw>>|
                #[trigger] sampling_run(scorer, queue@, team_size as nat, self.samples as nat, atts, states)
                    && states[0] == old(rng)@ && states.last() == final(rng)@ && res@ == sampling_matches(atts),
    {
        let ghost d = distinct_players(queue@);
        let ghost live = self.samples >= 1 && d && keys_positive(scorer);
        let ghost k = team_size as nat;
        let ghost samples = self.samples as nat;
        let ghost mut failed = false;
        let ghost start = rng@;
        let ghost mut atts: Seq<(PlayerId, Option<ProposedMatch>)> = Seq::empty();
        let ghost mut states: Seq<Seq<Draw>> = seq![rng@];
        let ghost mut fail_used: Seq<PlayerId> = Seq::empty();
        let ghost mut fail_anchor: PlayerId = PlayerId(0);
        let mut matches: Vec<ProposedMatch> = Vec::new();
        let mut used: Vec<PlayerId> = Vec::new();
        let mut q: usize = 0;
        while q < queue.len()
            invariant
                q <= queue@.len(),
                team_size > 0,
                2 * team_size <= usize::MAX,
                k == team_size,
                samples == self.samples,
                d == distinct_players(queue@),
                live == (self.samples >= 1 && d && keys_positive(scorer)),
                matches_from_queue(matches@, queue@, team_size as nat),
                d ==> all_distinct(players_of(matches@)),
                forall|i: int| 0 <= i < players_of(matches@).len() ==> used@.contains(
                    #[trigger] players_of(matches@)[i],
                ),
                !failed ==> forall|x: PlayerId| used@.contains(x) ==> players_of(matches@).contains(x),
                forall|j: int| 0 <= j < q ==> used@.contains(#[trigger] queue@[j].player_id),
                live && failed ==> unmatched_count(queue@, players_of(matches@)) < 2 * team_size,
                self.samples == 0 ==> matches@.len() == 0 && rng@ == start,
                live && failed ==> free_count(queue@, fail_used, fail_anchor) + 1 < 2 * team_size
                    && used@.contains(fail_anchor) && forall|x: PlayerId| fail_used.contains(x) ==> used@.contains(x),
                used@ == sampling_used(atts),
                matches@ == sampling_matches(atts),
                states.len() == atts.len() + 1,
                states[0] == start,
                states.last() == rng@,
                forall|t: int|
                    0 <= t < atts.len() ==> #[trigger] sampling_attempt(
                        scorer,
                        queue@,
                        k,
                        samples,
                        sampling_used(atts.subrange(0, t)),
                        atts[t].0,
                        states[t],
                        states[t + 1],
                        atts[t].1,
                    ),
            decreases queue@.len() - q,
        {
            let anchor = queue[q].player_id;
            if !contains_player(&used, anchor) {
                let ghost used_before = used@;
                proof {
                    assert(queued(queue@, anchor)) by {
                        assert(queue@[q as int].player_id == anchor);
                    }
                }
                let ghost rng_before = rng@;
                let best = self.best_sample(queue, scorer, team_size, anchor, &used, rng);
                proof {
                    let pool = pool_of(queue@, used_before, anchor);
                    lemma_pool_len(queue@, used_before, anchor);
                    if live && failed {
                        lemma_free_count_mono(queue@, fail_used, fail_anchor, used_before, anchor);
                    }
                    lemma_outcome_none(scorer, pool, anchor, k, samples, rng_before, rng@, best);
                    if live && pool.len() + 1 >= 2 * team_size {
                        lemma_outcome_some(scorer, pool, anchor, k, samples, rng_before, rng@, best);
                    }
                    assert(first_free_entry(queue@, used_before, q as int));
                    assert(sampling_attempt(scorer, queue@, k, samples, used_before, anchor, rng_before, rng@, best));
                }
                used.push(anchor);
                proof {
                    assert(used@[used_before.len() as int] == anchor);
                    assert(used@.contains(anchor));
                    assert forall|x: PlayerId| used_before.contains(x) implies used@.contains(x) by {
                        let k = choose|k: int| 0 <= k < used_before.len() && used_before[k] == x;
                        assert(used@[k] == x);
                    }
                }
                let ghost before = matches@;
                match best {
                    Some(m) => {
                        let ghost used_mid = used@;
                        push_all(&mut used, &m.team_a);
                        push_all(&mut used, &m.team_b);
                        matches.push(m);
                        proof {
                            assert(used@ =~= used_before + seq![anchor] + m.team_a@ + m.team_b@);
                            lemma_add_match(before, m, anchor, used_before, used@, queue@, team_size as nat, d);
                            if !failed {
                                lemma_used_grows(before, m, anchor, used_before, used@);
                            }
                            assert forall|x: PlayerId| used_mid.contains(x) implies used@.contains(x) by {
                                let k = choose|k: int| 0 <= k < used_mid.len() && used_mid[k] == x;
                                assert(used@[k] == x);
                            }
                            lemma_players_grow(before, m);
                            lemma_unmatched_mono(queue@, players_of(before), players_of(matches@));
                        }
                    },
                    None => {
                        proof {
                            if live && !failed {
                                assert forall|x: PlayerId| used_before.contains(x) <==> players_of(matches@).contains(x) by {
                                    if players_of(matches@).contains(x) {
                                        let i = choose|i: int|
                                            0 <= i < players_of(matches@).len() && players_of(matches@)[i] == x;
                                        assert(used_before.contains(players_of(matches@)[i]));
                                    }
                                }
                                lemma_unmatched_split(queue@, used_before, anchor);
                                lemma_unmatched_same(queue@, used_before, players_of(matches@));
                            }
                            if !failed {
                                fail_used = used_before;
                                fail_anchor = anchor;
                            }
                            failed = true;
                        }
                    },
                }
                proof {
                    let old_atts = atts;
                    let old_states = states;
                    atts = atts.push((anchor, best));
                    states = states.push(rng@);
                    assert(atts.drop_last() =~= old_atts);
                    assert(used@ =~= sampling_used(atts));
                    assert(matches@ =~= sampling_matches(atts));
                    assert(atts.subrange(0, old_atts.len() as int) =~= old_atts);
                    assert forall|t: int| 0 <= t < atts.len() implies #[trigger] sampling_attempt(
                        scorer,
                        queue@,
                        k,
                        samples,
                        sampling_used(atts.subrange(0, t)),
                        atts[t].0,
                        states[t],
                        states[t + 1],
                        atts[t].1,
                    ) by {
                        if t < old_atts.len() {
                            assert(atts.subrange(0, t) =~= old_atts.subrange(0, t));
                            assert(states[t] == old_states[t] && states[t + 1] == old_states[t + 1]);
                            assert(sampling_attempt(
                                scorer,
                                queue@,
                                k,
                                samples,
                                sampling_used(old_atts.subrange(0, t)),
                                old_atts[t].0,
                                old_states[t],
                                old_states[t + 1],
                                old_atts[t].1,
                            ));
                        }
                    }
                }
            }
            q = q + 1;
        }
        proof {
            assert(sampling_run(scorer, queue@, k, samples, atts, states));
            if !failed {
                assert forall|j: int| 0 <= j < queue@.len() implies players_of(matches@).contains(
                    #[trigger] queue@[j].player_id) by {
                    assert(used@.contains(queue@[j].player_id));
                }
                lemma_unmatched_none(queue@, players_of(matches@));
            }
        }
        matches
    }

    /// The free players for `anchor`, in queue order, with `samples`
    /// compositions drawn from them when at least `2 * team_size - 1` are
    /// free (none otherwise, and nothing drawn); the first of the
    /// best-scored, by the keys `scorer` returned, is kept, and none when
    /// every key is 0.
    fn best_sample<S: MatchScorer>(
        &self,
        queue: &[QueueEntry],
        scorer: &S,
        team_size: usize,
        anchor: PlayerId,
        used: &Vec<PlayerId>,
        rng: &mut SimRng,
    ) -> (res: Option<ProposedMatch>)
        requires
            team_size > 0,
            2 * team_size <= usize::MAX,
            queued(queue@, anchor),
            !used@.contains(anchor),
        ensures
            res matches Some(m) ==> m.team_a@.len() == team_size && m.team_b@.len() == team_size
                && m.team_a@[0] == anchor
                && (distinct_players(queue@) ==> all_distinct(m.team_a@ + m.team_b@))
                && (forall|i: int|
                0 <= i < (m.team_a@ + m.team_b@).len() ==> queued(queue@, #[trigger] (m.team_a@ + m.team_b@)[i]))
                && (forall|i: int|
                0 <= i < (m.team_a@ + m.team_b@).len() ==> !used@.contains(#[trigger] (m.team_a@ + m.team_b@)[i])),
            sample_outcome(
                scorer,
                pool_of(queue@, used@, anchor),
                anchor,
                team_size as nat,
                self.samples as nat,
                old(rng)@,
                final(rng)@,
                res,
            ),
    {
        let ghost d = distinct_players(queue@);
        let ghost start = rng@;
        let pool0 = free_pool(queue, used, anchor);
        let ghost pool_s = pool0@;
        proof {
            lemma_pool_len(queue@, used@, anchor);
        }
        if pool0.len() < 2 * team_size - 1 {
            return None;
        }
        let n = pool0.len();
        let mut best: Option<ProposedMatch> = None;
        let mut best_key: u64 = 0;
        let ghost mut idxss: Seq<Seq<usize>> = Seq::empty();
        let ghost mut keys: Seq<u64> = Seq::empty();
        let ghost mut best_i: int = 0;
        let mut sample: usize = 0;
        proof {
            assert(index_history(n as nat, idxss) =~= Seq::<Draw>::empty());
            assert(rng@ =~= start + index_history(n as nat, idxss));
        }
        while sample < self.samples
            invariant
                team_size > 0,
                2 * team_size <= usize::MAX,
                queued(queue@, anchor),
                !used@.contains(anchor),
                d == distinct_players(queue@),
                pool0@ == pool_s,
                pool_s == pool_of(queue@, used@, anchor),
                n == pool_s.len(),
                n + 1 >= 2 * team_size,
                forall|i: int| 0 <= i < pool_s.len() ==> drawable(queue@, used@, anchor, #[trigger] pool_s[i]),
                d ==> all_distinct(pool_s),
                sample <= self.samples,
                idxss.len() == sample,
                keys.len() == sample,
                rng@ == start + index_history(n as nat, idxss),
                forall|t: int|
                    0 <= t < sample ==> good_draws(n as nat, team_size as nat, #[trigger] idxss[t]) && scored_as(
                        scorer,
                        sampled_teams(anchor, pool_s, idxss[t], team_size as nat).0,
                        sampled_teams(anchor, pool_s, idxss[t], team_size as nat).1,
                        keys[t],
                    ),
                best is None <==> forall|t: int| 0 <= t < sample ==> #[trigger] keys[t] == 0,
                best is None ==> best_key == 0,
                best matches Some(m) ==> best_key > 0 && is_first_max(keys, best_i) && best_key == keys[best_i] && (
                    m.team_a@,
                    m.team_b@,
                ) == sampled_teams(anchor, pool_s, idxss[best_i], team_size as nat),
                best matches Some(m) ==> m.team_a@.len() == team_size && m.team_b@.len() == team_size
                    && m.team_a@[0] == anchor
                    && (d ==> all_distinct(m.team_a@ + m.team_b@))
                    && (forall|i: int|
                    0 <= i < (m.team_a@ + m.team_b@).len() ==> queued(queue@, #[trigger] (m.team_a@ + m.team_b@)[i]))
                    && (forall|i: int|
                    0 <= i < (m.team_a@ + m.team_b@).len() ==> !used@.contains(#[trigger] (m.team_a@ + m.team_b@)[i])),
            decreases self.samples - sample,
        {
            let ghost rng_s = rng@;
            let mut pool = copy_ids(&pool0);
            let mut team_a: Vec<PlayerId> = Vec::new();
            team_a.push(anchor);
            let mut team_b: Vec<PlayerId> = Vec::new();
            let ghost mut idxs: Seq<usize> = Seq::empty();
            proof {
                assert(team_a@ + team_b@ =~= seq![anchor]);
                assert(seq![anchor] + picks(pool_s, idxs) =~= seq![anchor]);
                assert(index_draws(n as nat, idxs) =~= Seq::<Draw>::empty());
                assert(rng@ =~= rng_s + index_draws(n as nat, idxs));
                if d {
                    assert forall|i: int| 0 <= i < pool@.len() implies !(team_a@ + team_b@).contains(#[trigger] pool@[i]) by {
                        assert(drawable(queue@, used@, anchor, pool@[i]));
                    }
                }
            }
            while pool.len() > 0 && team_a.len() + team_b.len() < 2 * team_size
                invariant
                    team_size > 0,
                    2 * team_size <= usize::MAX,
                    n == pool_s.len(),
                    n + 1 >= 2 * team_size,
                    !used@.contains(anchor),
                    queued(queue@, anchor),
                    idxs.len() + 1 == team_a@.len() + team_b@.len(),
                    team_a@.len() + team_b@.len() <= 2 * team_size,
                    draws_fit(n as nat, idxs),
                    pool@ == left_after(pool_s, idxs),
                    team_a@ + team_b@ == seq![anchor] + picks(pool_s, idxs),
                    team_a@.len() <= team_size,
                    team_b@.len() <= team_size,
                    team_a@.len() > 0 && team_a@[0] == anchor,
                    team_b@.len() > 0 ==> team_a@.len() == team_size,
                    rng@ == rng_s + index_draws(n as nat, idxs),
                    forall|i: int| 0 <= i < pool@.len() ==> drawable(queue@, used@, anchor, #[trigger] pool@[i]),
                    forall|i: int|
                        0 <= i < (team_a@ + team_b@).len() ==> queued(queue@, #[trigger] (team_a@ + team_b@)[i])
                            && !used@.contains((team_a@ + team_b@)[i]),
                    d ==> all_distinct(team_a@ + team_b@) && all_distinct(pool@)
                        && forall|i: int| 0 <= i < pool@.len() ==> !(team_a@ + team_b@).contains(#[trigger] pool@[i]),
                decreases pool@.len(),
            {
                proof {
                    lemma_left_len(pool_s, idxs);
                }
                let idx = rng.gen_index(pool.len());
                let ghost members = team_a@ + team_b@;
                let ghost old_pool = pool@;
                let pid = pool.remove(idx);
                proof {
                    old_pool.remove_ensures(idx as int);
                    assert(pid == old_pool[idx as int]);
                    if d {
                        lemma_draw(members, old_pool, idx as int);
                    }
                    assert forall|i: int| 0 <= i < pool@.len() implies drawable(queue@, used@, anchor, #[trigger] pool@[i]) by {
                        if i < idx {
                            assert(pool@[i] == old_pool[i]);
                        } else {
                            assert(pool@[i] == old_pool[i + 1]);
                        }
                    }
                    assert(drawable(queue@, used@, anchor, old_pool[idx as int]));
                    let idxs2 = idxs.push(idx);
                    assert(idxs2.drop_last() =~= idxs);
                    assert(index_draws(n as nat, idxs2) =~= index_draws(n as nat, idxs).push(
                        Draw::Index { below: (n - idxs.len()) as usize, value: idx },
                    ));
                    assert(picks(pool_s, idxs2) == picks(pool_s, idxs).push(pid));
                    idxs = idxs2;
                }
                if team_a.len() < team_size {
                    team_a.push(pid);
                    proof {
                        assert(team_b@.len() == 0);
                        assert(team_a@ + team_b@ =~= members.push(pid));
                    }
                } else {
                    team_b.push(pid);
                    proof {
                        assert(team_a@ + team_b@ =~= members.push(pid));
                    }
                }
                proof {
                    assert(seq![anchor] + picks(pool_s, idxs) =~= members.push(pid));
                    assert forall|i: int| 0 <= i < (team_a@ + team_b@).len() implies queued(queue@, #[trigger] (team_a@ + team_b@)[i])
                        && !used@.contains((team_a@ + team_b@)[i]) by {
                        if i < members.len() {
                            assert((team_a@ + team_b@)[i] == members[i]);
                        } else {
                            assert((team_a@ + team_b@)[i] == pid);
                        }
                    }
                }
            }
            proof {
                lemma_left_len(pool_s, idxs);
                assert(team_a@.len() == team_size && team_b@.len() == team_size);
                let mem = seq![anchor] + picks(pool_s, idxs);
                assert(team_a@ =~= mem.subrange(0, team_size as int));
                assert(team_b@ =~= mem.subrange(team_size as int, 2 * team_size as int));
                assert(good_draws(n as nat, team_size as nat, idxs));
            }
            let sa = team_a.as_slice();
            let sb = team_b.as_slice();
            let key = scorer.score_key(sa, sb);
            proof {
                assert(scored_as(scorer, team_a@, team_b@, key)) by {
                    assert(call_ensures(S::score_key, (scorer, sa, sb), key));
                }
            }
            let ghost keys2 = keys.push(key);
            let ghost idxss2 = idxss.push(idxs);
            let ghost old_best = best;
            let better = key > best_key;
            if better {
                best_key = key;
                best = Some(ProposedMatch { team_a, team_b });
                proof {
                    best_i = sample as int;
                }
            }
            proof {
                assert(idxss2.drop_last() =~= idxss);
                assert(index_history(n as nat, idxss2) == index_history(n as nat, idxss) + index_draws(n as nat, idxs));
                assert(rng@ =~= start + index_history(n as nat, idxss2));
                assert forall|t: int| 0 <= t < sample + 1 implies good_draws(n as nat, team_size as nat, #[trigger] idxss2[t])
                    && scored_as(
                    scorer,
                    sampled_teams(anchor, pool_s, idxss2[t], team_size as nat).0,
                    sampled_teams(anchor, pool_s, idxss2[t], team_size as nat).1,
                    keys2[t],
                ) by {
                    if t < sample {
                        assert(idxss2[t] == idxss[t] && keys2[t] == keys[t]);
                    }
                }
                if better {
                    assert(is_first_max(keys2, best_i)) by {
                        assert forall|j: int| 0 <= j < keys2.len() implies keys2[j] <= keys2[best_i] by {
                            if j < sample {
                                assert(keys2[j] == keys[j]);
                                if old_best is None {
                                    assert(keys[j] == 0);
                                }
                            }
                        }
                        assert forall|j: int| 0 <= j < best_i implies keys2[j] < keys2[best_i] by {
                            assert(keys2[j] == keys[j]);
                            if old_best is None {
                                assert(keys[j] == 0);
                            }
                        }
                    }
                } else if best is Some {
                    assert(keys2[best_i] == keys[best_i]);
                    assert(is_first_max(keys2, best_i));
                } else {
                    assert(key == 0);
                    assert forall|t: int| 0 <= t < sample + 1 implies #[trigger] keys2[t] == 0 by {
                        if t < sample {
                            assert(keys2[t] == keys[t]);
                        }
                    }
                }
                if best is Some && !better {
                    assert(!(forall|t: int| 0 <= t < sample + 1 ==> #[trigger] keys2[t] == 0)) by {
                        assert(keys2[best_i] == keys[best_i]);
                    }
                }
                idxss = idxss2;
                keys = keys2;
            }
            sample = sample + 1;
        }
        proof {
            assert(sample_run(scorer, pool_s, anchor, team_size as nat, self.samples as nat, start, rng@, best, idxss, keys));
        }
        best
    }
}

/// The free players for `anchor`: the players of the queue entries, in
/// queue order, that are neither used nor the anchor.
pub open spec fn pool_of(queue: Seq<QueueEntry>, used: Seq<PlayerId>, anchor: PlayerId) -> Seq<PlayerId>
    decreases queue.len(),
{
    if queue.len() == 0 {
        Seq::empty()
    } else {
        pool_of(queue.drop_last(), used, anchor) + if !used.contains(queue.last().player_id)
            && queue.last().player_id != anchor {
            seq![queue.last().player_id]
        } else {
            Seq::empty()
        }
    }
}

proof fn lemma_pool_len(queue: Seq<QueueEntry>, used: Seq<PlayerId>, anchor: PlayerId)
    ensures
        pool_of(queue, used, anchor).len() == free_count(queue, used, anchor),
    decreases queue.len(),
{
    if queue.len() > 0 {
        lemma_pool_len(queue.drop_last(), used, anchor);
    }
}

/// What is left of `pool` after removing, in turn, the player at each
/// index of `idxs`.
pub open spec fn left_after(pool: Seq<PlayerId>, idxs: Seq<usize>) -> Seq<PlayerId>
    decreases idxs.len(),
{
    if idxs.len() == 0 {
        pool
    } else {
        left_after(pool, idxs.drop_last()).remove(idxs.last() as int)
    }
}

/// The players taken out of `pool` by removing, in turn, the player at
/// each index of `idxs`.
pub open spec fn picks(pool: Seq<PlayerId>, idxs: Seq<usize>) -> Seq<PlayerId>
    decreases idxs.len(),
{
    if idxs.len() == 0 {
        Seq::empty()
    } else {
        picks(pool, idxs.drop_last()).push(left_after(pool, idxs.drop_last())[idxs.last() as int])
    }
}

/// Each index of `idxs` lies inside what is left of `n` players.
pub open spec fn draws_fit(n: nat, idxs: Seq<usize>) -> bool {
    forall|t: int| 0 <= t < idxs.len() ==> #[trigger] idxs[t] < n - t
}

/// `idxs` draws the `2 * k - 1` players of one composition from `n`.
pub open spec fn good_draws(n: nat, k: nat, idxs: Seq<usize>) -> bool {
    idxs.len() + 1 == 2 * k && draws_fit(n, idxs)
}

proof fn lemma_left_len(pool: Seq<PlayerId>, idxs: Seq<usize>)
    requires
        draws_fit(pool.len(), idxs),
        idxs.len() <= pool.len(),
    ensures
        left_after(pool, idxs).len() == pool.len() - idxs.len(),
    decreases idxs.len(),
{
    if idxs.len() > 0 {
        assert forall|t: int| 0 <= t < idxs.drop_last().len() implies #[trigger] idxs.drop_last()[t] < pool.len() - t by {
            assert(idxs.drop_last()[t] == idxs[t]);
        }
        lemma_left_len(pool, idxs.drop_last());
        assert(idxs[idxs.len() - 1] < pool.len() - (idxs.len() - 1));
    }
}

/// The teams the indices `idxs` draw around `anchor` from `pool`: the
/// anchor, then the players drawn in turn; team A takes the first `k`, team
/// B the next `k`.
pub open spec fn sampled_teams(anchor: PlayerId, pool: Seq<PlayerId>, idxs: Seq<usize>, k: nat) -> (
    Seq<PlayerId>,
    Seq<PlayerId>,
) {
    let m = seq![anchor] + picks(pool, idxs);
    (m.subrange(0, k as int), m.subrange(k as int, 2 * k as int))
}

/// The composition that the drawn indices `idxs` give around `anchor`: the
/// player at each index is taken out of what is left of `pool` in turn,
/// team A filled (after the anchor) before team B.
pub fn sample_from_draws(anchor: PlayerId, pool: &Vec<PlayerId>, idxs: &[usize], team_size: usize) -> (m:
    ProposedMatch)
    requires
        team_size > 0,
        2 * team_size <= usize::MAX,
        good_draws(pool@.len(), team_size as nat, idxs@),
    ensures
        (m.team_a@, m.team_b@) == sampled_teams(anchor, pool@, idxs@, team_size as nat),
{
    let ghost pool_s = pool@;
    let ghost n = pool@.len();
    let ghost k = team_size as nat;
    let mut left = copy_ids(pool);
    let mut team_a: Vec<PlayerId> = Vec::new();
    team_a.push(anchor);
    let mut team_b: Vec<PlayerId> = Vec::new();
    let mut t: usize = 0;
    proof {
        assert(idxs@.subrange(0, 0) =~= Seq::<usize>::empty());
        assert(team_a@ + team_b@ =~= seq![anchor] + picks(pool_s, idxs@.subrange(0, 0)));
    }
    while t < idxs.len()
        invariant
            t <= idxs@.len(),
            k == team_size,
            team_size > 0,
            2 * team_size <= usize::MAX,
            n == pool_s.len(),
            good_draws(n, k, idxs@),
            left@ == left_after(pool_s, idxs@.subrange(0, t as int)),
            team_a@ + team_b@ == seq![anchor] + picks(pool_s, idxs@.subrange(0, t as int)),
            team_a@.len() == if t + 1 <= k { t + 1 } else { k as int },
            team_b@.len() == t + 1 - team_a@.len(),
        decreases idxs@.len() - t,
    {
        let ghost sub = idxs@.subrange(0, t as int);
        let ghost sub2 = idxs@.subrange(0, t as int + 1);
        proof {
            assert forall|s: int| 0 <= s < sub.len() implies #[trigger] sub[s] < n - s by {
                assert(sub[s] == idxs@[s]);
                assert(idxs@[s] < n - s);
            }
            lemma_left_len(pool_s, sub);
            assert(idxs@[t as int] < n - t);
            assert(sub2.drop_last() =~= sub);
            assert(sub2.last() == idxs@[t as int]);
        }
        let ghost members = team_a@ + team_b@;
        let ghost old_left = left@;
        let pid = left.remove(idxs[t]);
        proof {
            assert(pid == old_left[idxs@[t as int] as int]);
            assert(left@ == left_after(pool_s, sub2));
            assert(picks(pool_s, sub2) == picks(pool_s, sub).push(pid));
        }
        if team_a.len() < team_size {
            team_a.push(pid);
            proof {
                assert(team_b@.len() == 0);
                assert(team_a@ + team_b@ =~= members.push(pid));
            }
        } else {
            team_b.push(pid);
            proof {
                assert(team_a@ + team_b@ =~= members.push(pid));
            }
        }
        t = t + 1;
    }
    proof {
        assert(idxs@.subrange(0, idxs@.len() as int) =~= idxs@);
        let all = seq![anchor] + picks(pool_s, idxs@);
        assert(team_a@ =~= all.subrange(0, k as int)) by {
            assert forall|i: int| 0 <= i < k implies team_a@[i] == all[i] by {
                assert((team_a@ + team_b@)[i] == team_a@[i]);
            }
        }
        assert(team_b@ =~= all.subrange(k as int, 2 * k as int)) by {
            assert forall|i: int| 0 <= i < k implies team_b@[i] == all[k + i] by {
                assert((team_a@ + team_b@)[k + i] == team_b@[i]);
            }
        }
    }
    ProposedMatch { team_a, team_b }
}

/// `scorer` can return `key` for the teams `a` and `b`.
pub open spec fn scored_as<S: MatchScorer>(scorer: &S, a: Seq<PlayerId>, b: Seq<PlayerId>, key: u64) -> bool {
    exists|ta: &[PlayerId], tb: &[PlayerId]|
        #[trigger] call_ensures(S::score_key, (scorer, ta, tb), key) && ta@ == a && tb@ == b
}

/// `keys[i]` is the largest key, and no earlier key is as large.
pub open spec fn is_first_max(keys: Seq<u64>, i: int) -> bool {
    &&& 0 <= i < keys.len()
    &&& forall|j: int| 0 <= j < keys.len() ==> keys[j] <= keys[i]
    &&& forall|j: int| 0 <= j < i ==> keys[j] < keys[i]
}

/// The history of drawing the indices of each of `idxss` in turn from `n`
/// players.
pub open spec fn index_history(n: nat, idxss: Seq<Seq<usize>>) -> Seq<Draw>
    decreases idxss.len(),
{
    if idxss.len() == 0 {
        Seq::empty()
    } else {
        index_history(n, idxss.drop_last()) + index_draws(n, idxss.last())
    }
}

/// One anchor's sampling with the draws `idxss` and the returned keys
/// `keys`: `samples` compositions drawn from `pool`, the generator's history
/// growing by their draws, and the first best-keyed kept; a key of 0 stands
/// for a score no composition is kept for, so when every key is 0 none is.
pub open spec fn sample_run<S: MatchScorer>(
    scorer: &S,
    pool: Seq<PlayerId>,
    anchor: PlayerId,
    k: nat,
    samples: nat,
    before: Seq<Draw>,
    after: Seq<Draw>,
    res: Option<ProposedMatch>,
    idxss: Seq<Seq<usize>>,
    keys: Seq<u64>,
) -> bool {
    &&& idxss.len() == samples
    &&& keys.len() == samples
    &&& after == before + index_history(pool.len(), idxss)
    &&& forall|t: int|
        0 <= t < samples ==> good_draws(pool.len(), k, #[trigger] idxss[t]) && scored_as(
            scorer,
            sampled_teams(anchor, pool, idxss[t], k).0,
            sampled_teams(anchor, pool, idxss[t], k).1,
            keys[t],
        )
    &&& (forall|t: int| 0 <= t < samples ==> #[trigger] keys[t] == 0) ==> res is None
    &&& !(forall|t: int| 0 <= t < samples ==> #[trigger] keys[t] == 0) ==> exists|i: int|
        #![trigger is_first_max(keys, i)]
        is_first_max(keys, i) && (res matches Some(m) && (m.team_a@, m.team_b@) == sampled_teams(
            anchor,
            pool,
            idxss[i],
            k,
        ))
}

/// The outcome of one anchor's sampling: nothing drawn and no composition
/// when fewer than `2 * k - 1` players are free, else a `sample_run`.
pub open spec fn sample_outcome<S: MatchScorer>(
    scorer: &S,
    pool: Seq<PlayerId>,
    anchor: PlayerId,
    k: nat,
    samples: nat,
    before: Seq<Draw>,
    after: Seq<Draw>,
    res: Option<ProposedMatch>,
) -> bool {
    if pool.len() + 1 < 2 * k {
        res is None && after == before
    } else {
        exists|idxss: Seq<Seq<usize>>, keys: Seq<u64>|
            #[trigger] sample_run(scorer, pool, anchor, k, samples, before, after, res, idxss, keys)
    }
}

/// `queue[j]` is the first entry whose player is not in `matched`.
pub open spec fn first_free_entry(queue: Seq<QueueEntry>, matched: Seq<PlayerId>, j: int) -> bool {
    &&& 0 <= j < queue.len()
    &&& !matched.contains(queue[j].player_id)
    &&& forall|i: int| 0 <= i < j ==> matched.contains(#[trigger] queue[i].player_id)
}

/// The players the sampling attempts mark used, in turn: each anchor, then
/// the players of its match, if it formed one.
pub open spec fn sampling_used(atts: Seq<(PlayerId, Option<ProposedMatch>)>) -> Seq<PlayerId>
    decreases atts.len(),
{
    if atts.len() == 0 {
        Seq::empty()
    } else {
        sampling_used(atts.drop_last()) + seq![atts.last().0] + match atts.last().1 {
            Some(m) => m.team_a@ + m.team_b@,
            None => Seq::empty(),
        }
    }
}

/// The matches the sampling attempts formed, in order.
pub open spec fn sampling_matches(atts: Seq<(PlayerId, Option<ProposedMatch>)>) -> Seq<ProposedMatch>
    decreases atts.len(),
{
    if atts.len() == 0 {
        Seq::empty()
    } else {
        sampling_matches(atts.drop_last()) + match atts.last().1 {
            Some(m) => seq![m],
            None => Seq::empty(),
        }
    }
}

/// One attempt with the players `used` before it: `anchor` is the player of
/// the first entry free of them, and sampling from the players they leave
/// free turns the generator's history from `before` into `after` with the
/// outcome `res`.
pub open spec fn sampling_attempt<S: MatchScorer>(
    scorer: &S,
    queue: Seq<QueueEntry>,
    k: nat,
    samples: nat,
    used: Seq<PlayerId>,
    anchor: PlayerId,
    before: Seq<Draw>,
    after: Seq<Draw>,
    res: Option<ProposedMatch>,
) -> bool {
    &&& exists|j: int| #[trigger] first_free_entry(queue, used, j) && queue[j].player_id == anchor
    &&& sample_outcome(scorer, pool_of(queue, used, anchor), anchor, k, samples, before, after, res)
}

/// A whole sampling run: each attempt follows the ones before it, the
/// history passing through `states`, and no queue entry is left free.
pub open spec fn sampling_run<S: MatchScorer>(
    scorer: &S,
    queue: Seq<QueueEntry>,
    k: nat,
    samples: nat,
    atts: Seq<(PlayerId, Option<ProposedMatch>)>,
    states: Seq<Seq<Draw>>,
) -> bool {
    &&& states.len() == atts.len() + 1
    &&& forall|t: int|
        0 <= t < atts.len() ==> #[trigger] sampling_attempt(
            scorer,
            queue,
            k,
            samples,
            sampling_used(atts.subrange(0, t)),
            atts[t].0,
            states[t],
            states[t + 1],
            atts[t].1,
        )
    &&& forall|j: int| 0 <= j < queue.len() ==> sampling_used(atts).contains(#[trigger] queue[j].player_id)
}

/// Using more players, the old anchor among them, leaves no more entries
/// free for a new anchor.
proof fn lemma_free_count_mono(queue: Seq<QueueEntry>, u1: Seq<PlayerId>, x: PlayerId, u2: Seq<PlayerId>, y: PlayerId)
    requires
        forall|p: PlayerId| u1.contains(p) ==> u2.contains(p),
        u2.contains(x),
    ensures
        free_count(queue, u2, y) <= free_count(queue, u1, x),
    decreases queue.len(),
{
    if queue.len() > 0 {
        lemma_free_count_mono(queue.drop_last(), u1, x, u2, y);
    }
}

/// Without samples nothing is drawn and no composition comes out.
proof fn lemma_outcome_none<S: MatchScorer>(
    scorer: &S,
    pool: Seq<PlayerId>,
    anchor: PlayerId,
    k: nat,
    samples: nat,
    before: Seq<Draw>,
    after: Seq<Draw>,
    res: Option<ProposedMatch>,
)
    requires
        sample_outcome(scorer, pool, anchor, k, samples, before, after, res),
    ensures
        samples == 0 ==> res is None && after == before,
{
    if pool.len() + 1 >= 2 * k && samples == 0 {
        let (idxss, keys) = choose|idxss: Seq<Seq<usize>>, keys: Seq<u64>|
            #[trigger] sample_run(scorer, pool, anchor, k, samples, before, after, res, idxss, keys);
        assert(idxss.len() == 0);
        assert(index_history(pool.len(), idxss) =~= Seq::<Draw>::empty());
        assert(after =~= before);
    }
}

/// With a scorer that never returns 0, some sample is kept whenever there
/// are samples and players enough.
proof fn lemma_outcome_some<S: MatchScorer>(
    scorer: &S,
    pool: Seq<PlayerId>,
    anchor: PlayerId,
    k: nat,
    samples: nat,
    before: Seq<Draw>,
    after: Seq<Draw>,
    res: Option<ProposedMatch>,
)
    requires
        sample_outcome(scorer, pool, anchor, k, samples, before, after, res),
        keys_positive(scorer),
        samples > 0,
        pool.len() + 1 >= 2 * k,
    ensures
        res is Some,
{
    let (idxss, keys) = choose|idxss: Seq<Seq<usize>>, keys: Seq<u64>|
        #[trigger] sample_run(scorer, pool, anchor, k, samples, before, after, res, idxss, keys);
    let a = sampled_teams(anchor, pool, idxss[0], k).0;
    let b = sampled_teams(anchor, pool, idxss[0], k).1;
    assert(scored_as(scorer, a, b, keys[0]));
    let (ta, tb) = choose|ta: &[PlayerId], tb: &[PlayerId]|
        #[trigger] call_ensures(S::score_key, (scorer, ta, tb), keys[0]) && ta@ == a && tb@ == b;
    assert(keys[0] > 0);
    if res is None {
        assert(!(keys[0] == 0));
    }
}

/// `scorer` never returns the key 0.
pub open spec fn keys_positive<S: MatchScorer>(scorer: &S) -> bool {
    forall|ta: &[PlayerId], tb: &[PlayerId], key: u64|
        #[trigger] call_ensures(S::score_key, (scorer, ta, tb), key) ==> key > 0
}

/// The free players for `anchor` in queue order.
fn free_pool(queue: &[QueueEntry], used: &Vec<PlayerId>, anchor: PlayerId) -> (pool: Vec<PlayerId>)
    requires
        !used@.contains(anchor),
    ensures
        pool@ == pool_of(queue@, used@, anchor),
        forall|i: int| 0 <= i < pool@.len() ==> drawable(queue@, used@, anchor, #[trigger] pool@[i]),
        distinct_players(queue@) ==> all_distinct(pool@),
{
    let ghost d = distinct_players(queue@);
    let mut pool: Vec<PlayerId> = Vec::new();
    let mut c: usize = 0;
    while c < queue.len()
        invariant
            c <= queue@.len(),
            !used@.contains(anchor),
            pool@ == pool_of(queue@.subrange(0, c as int), used@, anchor),
            forall|i: int| 0 <= i < pool@.len() ==> drawable(queue@, used@, anchor, #[trigger] pool@[i]),
            d == distinct_players(queue@),
            d ==> all_distinct(pool@),
            d ==> forall|i: int| 0 <= i < pool@.len() ==> exists|j: int| 0 <= j < c && queue@[j].player_id == #[trigger] pool@[i],
        decreases queue@.len() - c,
    {
        let pid = queue[c].player_id;
        proof {
            assert(queue@.subrange(0, c as int + 1).drop_last() =~= queue@.subrange(0, c as int));
            assert(queue@.subrange(0, c as int + 1).last() == queue@[c as int]);
        }
        if !contains_player(used, pid) && pid != anchor {
            proof {
                assert(queued(queue@, pid)) by {
                    assert(queue@[c as int].player_id == pid);
                }
                if d {
                    assert forall|i: int| 0 <= i < pool@.len() implies pool@[i] != pid by {
                        let j = choose|j: int| 0 <= j < c && queue@[j].player_id == pool@[i];
                        assert(queue@[j].player_id != queue@[c as int].player_id);
                    }
                }
            }
            let ghost old_pool = pool@;
            pool.push(pid);
            proof {
                if d {
                    assert forall|i: int, j: int| 0 <= i < pool@.len() && 0 <= j < pool@.len() && i != j implies pool@[i] != pool@[j] by {
                        if i < old_pool.len() && j < old_pool.len() {
                            assert(pool@[i] == old_pool[i] && pool@[j] == old_pool[j]);
                        } else if i < old_pool.len() {
                            assert(pool@[i] == old_pool[i]);
                        } else if j < old_pool.len() {
                            assert(pool@[j] == old_pool[j]);
                        }
                    }
                    assert forall|i: int| 0 <= i < pool@.len() implies exists|j: int| 0 <= j < c + 1 && queue@[j].player_id == #[trigger] pool@[i] by {
                        if i < old_pool.len() {
                            assert(pool@[i] == old_pool[i]);
                            let j = choose|j: int| 0 <= j < c && queue@[j].player_id == old_pool[i];
                            assert(0 <= j < c + 1 && queue@[j].player_id == pool@[i]);
                        } else {
                            assert(queue@[c as int].player_id == pool@[i]);
                        }
                    }
                }
                assert(pool@ =~= pool_of(queue@.subrange(0, c as int + 1), used@, anchor));
            }
        } else {
            proof {
                assert(pool@ =~= pool_of(queue@.subrange(0, c as int + 1), used@, anchor));
            }
        }
        c = c + 1;
    }
    proof {
        assert(queue@.subrange(0, queue@.len() as int) =~= queue@);
    }
    pool
}

/// The players of all the matches, before and after one more, as members.
pub(crate) proof fn lemma_players_grow(before: Seq<ProposedMatch>, m: ProposedMatch)
    ensures
        forall|x: PlayerId| players_of(before).contains(x) ==> players_of(before.push(m)).contains(x),
{
    let after = before.push(m);
    assert(after.drop_last() =~= before);
    assert forall|x: PlayerId| players_of(before).contains(x) implies players_of(after).contains(x) by {
        let i = choose|i: int| 0 <= i < players_of(before).len() && players_of(before)[i] == x;
        assert(players_of(after)[i] == x);
    }
}

/// After a match is added, every used player is a player of some match.
pub(crate) proof fn lemma_used_grows(
    before: Seq<ProposedMatch>,
    m: ProposedMatch,
    anchor: PlayerId,
    used_before: Seq<PlayerId>,
    used_after: Seq<PlayerId>,
)
    requires
        forall|x: PlayerId| used_before.contains(x) ==> players_of(before).contains(x),
        m.team_a@.len() > 0 && m.team_a@[0] == anchor,
        used_after == used_before + seq![anchor] + m.team_a@ + m.team_b@,
    ensures
        forall|x: PlayerId| used_after.contains(x) ==> players_of(before.push(m)).contains(x),
{
    let after = before.push(m);
    assert(after.drop_last() =~= before);
    let all = players_of(after);
    let old_p = players_of(before);
    assert(all =~= old_p + m.team_a@ + m.team_b@);
    assert forall|x: PlayerId| used_after.contains(x) implies all.contains(x) by {
        let k = choose|k: int| 0 <= k < used_after.len() && used_after[k] == x;
        let n = used_before.len() as int;
        if k < n {
            assert(used_before[k] == x);
            assert(used_before.contains(x));
            assert(old_p.contains(x));
            let i = choose|i: int| 0 <= i < old_p.len() && old_p[i] == x;
            assert(all[i] == x);
        } else if k == n {
            assert(all[old_p.len() as int] == m.team_a@[0]);
        } else if k < n + 1 + m.team_a@.len() {
            assert(all[old_p.len() + (k - n - 1)] == x);
        } else {
            assert(all[old_p.len() + m.team_a@.len() + (k - n - 1 - m.team_a@.len())] == x);
        }
    }
}

pub(crate) proof fn lemma_add_match(
    before: Seq<ProposedMatch>,
    m: ProposedMatch,
    anchor: PlayerId,
    used_before: Seq<PlayerId>,
    used_after: Seq<PlayerId>,
    queue: Seq<QueueEntry>,
    k: nat,
    d: bool,
)
    requires
        matches_from_queue(before, queue, k),
        d ==> all_distinct(players_of(before)),
        forall|i: int| 0 <= i < players_of(before).len() ==> used_before.contains(#[trigger] players_of(before)[i]),
        m.team_a@.len() == k && m.team_b@.len() == k,
        d ==> all_distinct(m.team_a@ + m.team_b@),
        forall|i: int| 0 <= i < (m.team_a@ + m.team_b@).len() ==> queued(queue, #[trigger] (m.team_a@ + m.team_b@)[i]),
        forall|i: int| 0 <= i < (m.team_a@ + m.team_b@).len() ==> !used_before.contains(#[trigger] (m.team_a@ + m.team_b@)[i]),
        used_after == used_before + seq![anchor] + m.team_a@ + m.team_b@,
    ensures
        matches_from_queue(before.push(m), queue, k),
        d ==> all_distinct(players_of(before.push(m))),
        forall|i: int| 0 <= i < players_of(before.push(m)).len() ==> used_after.contains(#[trigger] players_of(before.push(m))[i]),
{
    let after = before.push(m);
    let ua = used_before + seq![anchor];
    assert forall|x: PlayerId| used_before.contains(x) implies used_after.contains(x) by {
        let j = choose|j: int| 0 <= j < used_before.len() && used_before[j] == x;
        assert(used_after[j] == x);
    }
    assert forall|i: int| 0 <= i < m.team_a@.len() implies used_after.contains(#[trigger] m.team_a@[i]) by {
        assert(used_after[ua.len() + i] == m.team_a@[i]);
    }
    assert forall|i: int| 0 <= i < m.team_b@.len() implies used_after.contains(#[trigger] m.team_b@[i]) by {
        assert(used_after[ua.len() + m.team_a@.len() + i] == m.team_b@[i]);
    }
    let old_p = players_of(before);
    let new_p = m.team_a@ + m.team_b@;
    assert(after.drop_last() =~= before);
    assert(players_of(after) =~= old_p + new_p);
    assert forall|i: int| 0 <= i < after.len() implies (#[trigger] after[i]).team_a@.len() == k && after[i].team_b@.len() == k by {
        if i < before.len() {
            assert(after[i] == before[i]);
        }
    }
    let all = players_of(after);
    if d {
        assert forall|i: int, j: int| 0 <= i < all.len() && 0 <= j < all.len() && i != j implies all[i] != all[j] by {
            let n = old_p.len() as int;
            if i < n && j < n {
                assert(all[i] == old_p[i] && all[j] == old_p[j]);
            } else if i >= n && j >= n {
                assert(all[i] == new_p[i - n] && all[j] == new_p[j - n]);
            } else if i < n {
                assert(all[i] == old_p[i] && all[j] == new_p[j - n]);
                assert(used_before.contains(old_p[i]));
            } else {
                assert(all[j] == old_p[j] && all[i] == new_p[i - n]);
                assert(used_before.contains(old_p[j]));
            }
        }
    }
    assert forall|i: int| 0 <= i < all.len() implies queued(queue, #[trigger] all[i]) && used_after.contains(all[i]) by {
        let n = old_p.len() as int;
        if i < n {
            assert(all[i] == old_p[i]);
            assert(used_before.contains(old_p[i]));
        } else {
            assert(all[i] == new_p[i - n]);
            if i - n < m.team_a@.len() {
                assert(new_p[i - n] == m.team_a@[i - n]);
            } else {
                assert(new_p[i - n] == m.team_b@[i - n - m.team_a@.len()]);
            }
        }
    }
}

} // verus!
