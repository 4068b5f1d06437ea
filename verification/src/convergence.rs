//! The number of games each player needed before the rating came close
//! enough to the true skill. Whether a rating is close enough is decided by
//! the caller (a floating-point comparison); the bookkeeping is here.
use vstd::prelude::*;
use std::collections::HashMap;
use vstd::std_specs::iter::IteratorSpec;
use crate::ids::PlayerId;

verus! {

broadcast use vstd::std_specs::hash::group_hash_axioms;

/// `a` comes before `b`: fewer games, or as many games and a smaller
/// player id.
pub open spec fn pair_before(a: (u64, u64), b: (u64, u64)) -> bool {
    a.0 < b.0 || (a.0 == b.0 && a.1 < b.1)
}

/// Each pair of `s` comes strictly before the next ones.
pub open spec fn strictly_sorted(s: Seq<(u64, u64)>) -> bool {
    forall|i: int, j: int| 0 <= i < j < s.len() ==> pair_before(#[trigger] s[i], #[trigger] s[j])
}

/// `pair` is (games, player): the player converged after that many games.
pub open spec fn converged_pair(m: Map<u64, Option<u64>>, pair: (u64, u64)) -> bool {
    m.contains_key(pair.1) && m[pair.1] == Some(pair.0)
}

/// The record after player `pid`, with `games` games played, took part in
/// a match: a player seen for the first time is recorded as converged at
/// `games` or not converged; a player not converged yet converges at
/// `games`; a converged player keeps the first count.
pub open spec fn after_record(m: Map<u64, Option<u64>>, pid: u64, converged: bool, games: u64) -> Map<
    u64,
    Option<u64>,
> {
    if m.contains_key(pid) {
        if converged && m[pid] is None {
            m.insert(pid, Some(games))
        } else {
            m
        }
    } else {
        m.insert(
            pid,
            if converged {
                Some(games)
            } else {
                None
            },
        )
    }
}

/// For each player seen in a match, the games played when the rating
/// first converged, if it has.
#[derive(Debug)]
pub struct ConvergenceGames {
    games: HashMap<u64, Option<u64>>,
}

impl View for ConvergenceGames {
    type V = Map<u64, Option<u64>>;

    closed spec fn view(&self) -> Map<u64, Option<u64>> {
        self.games@
    }
}

/// Inserts `x` into the strictly sorted `v`, unless it is there.
fn insert_sorted(v: &mut Vec<(u64, u64)>, x: (u64, u64))
    requires
        strictly_sorted(old(v)@),
    ensures
        strictly_sorted(final(v)@),
        forall|y: (u64, u64)| final(v)@.contains(y) <==> (old(v)@.contains(y) || y == x),
{
    let mut i: usize = 0;
    while i < v.len() && (v[i].0 < x.0 || (v[i].0 == x.0 && v[i].1 < x.1))
        invariant
            i <= v@.len(),
            v@ == old(v)@,
            forall|j: int| 0 <= j < i ==> pair_before(#[trigger] v@[j], x),
        decreases v@.len() - i,
    {
        i = i + 1;
    }
    if i < v.len() && v[i].0 == x.0 && v[i].1 == x.1 {
        proof {
            assert(v@[i as int] == x);
        }
        return;
    }
    let ghost before = v@;
    assert(before == old(v)@);
    v.insert(i, x);
    proof {
        assert forall|a: int, b: int| 0 <= a < b < v@.len() implies pair_before(#[trigger] v@[a], #[trigger] v@[b]) by {
            if b < i {
                assert(v@[a] == before[a] && v@[b] == before[b]);
            } else if b == i {
                assert(v@[a] == before[a]);
            } else if a < i {
                assert(v@[a] == before[a] && v@[b] == before[b - 1]);
                assert(pair_before(before[a], x));
                assert(!pair_before(before[i as int], x));
                if b - 1 > i {
                    assert(pair_before(before[i as int], before[b - 1]));
                }
            } else if a == i {
                assert(v@[b] == before[b - 1]);
                assert(!pair_before(before[i as int], x));
                assert(before[i as int] != x);
                if b - 1 > i {
                    assert(pair_before(before[i as int], before[b - 1]));
                }
            } else {
                assert(v@[a] == before[a - 1] && v@[b] == before[b - 1]);
            }
        }
        assert forall|y: (u64, u64)| v@.contains(y) <==> (before.contains(y) || y == x) by {
            if v@.contains(y) {
                let k = choose|k: int| 0 <= k < v@.len() && v@[k] == y;
                if k < i {
                    assert(before[k] == y);
                } else if k > i {
                    assert(before[k - 1] == y);
                }
            }
            if before.contains(y) {
                let k = choose|k: int| 0 <= k < before.len() && before[k] == y;
                if k < i {
                    assert(v@[k] == y);
                } else {
                    assert(v@[k + 1] == y);
                }
            }
            if y == x {
                assert(v@[i as int] == x);
            }
        }
        assert(forall|y: (u64, u64)| v@.contains(y) <==> (old(v)@.contains(y) || y == x));
    }
}

impl ConvergenceGames {
    /// No player seen yet.
    pub fn new() -> (c: ConvergenceGames)
        ensures
            c@ == Map::<u64, Option<u64>>::empty(),
    {
        ConvergenceGames { games: HashMap::new() }
    }

    /// Notes that `pid` took part in a match after `games_played` games,
    /// its rating `converged` or not.
    pub fn record(&mut self, pid: PlayerId, converged: bool, games_played: u64)
        ensures
            final(self)@ == after_record(old(self)@, pid.0, converged, games_played),
    {
        let seen: Option<Option<u64>> = match self.games.get(&pid.0) {
            Some(v) => Some(*v),
            None => None,
        };
        match seen {
            None => {
                let first = if converged {
                    Some(games_played)
                } else {
                    None
                };
                self.games.insert(pid.0, first);
            },
            Some(prev) => {
                if converged && prev.is_none() {
                    self.games.insert(pid.0, Some(games_played));
                }
            },
        }
    }

    /// The (games, player id) pairs of the players that converged,
    /// ordered by games and then by player id.
    pub fn sorted_pairs(&self) -> (res: Vec<(u64, u64)>)
        ensures
            strictly_sorted(res@),
            forall|pair: (u64, u64)| res@.contains(pair) <==> converged_pair(self@, pair),
    {
        let ghost m = self@;
        let ghost all = vstd::std_specs::hash::spec_hash_map_iter(&self.games).remaining();
        let mut out: Vec<(u64, u64)> = Vec::new();
        for kv in it: self.games.iter()
            invariant
                it.seq() == all,
                m == self@,
                strictly_sorted(out@),
                forall|pair: (u64, u64)| out@.contains(pair) ==> converged_pair(m, pair),
                forall|i: int|
                    0 <= i < it.index() && (*all[i].1) is Some ==> out@.contains(
                        ((*all[i].1)->0, *all[i].0),
                    ),
        {
            let (k, v) = kv;
            let ghost idx = it.index();
            let ghost before = out@;
            proof {
                assert(m.contains_key(*all[idx].0) && m[*all[idx].0] == *all[idx].1);
            }
            match v {
                Some(g) => {
                    insert_sorted(&mut out, (*g, *k));
                },
                None => {},
            }
            proof {
                assert forall|i: int|
                    0 <= i < idx + 1 && (*all[i].1) is Some implies out@.contains(((*all[i].1)->0, *all[i].0)) by {
                    if i < idx {
                        assert(before.contains(((*all[i].1)->0, *all[i].0)));
                    }
                }
            }
        }
        proof {
            assert forall|pair: (u64, u64)| converged_pair(m, pair) implies out@.contains(pair) by {
                assert(all.contains((&pair.1, &m[pair.1])));
                let i = choose|i: int| 0 <= i < all.len() && all[i] == (&pair.1, &m[pair.1]);
            }
        }
        out
    }
}

/// Two strictly sorted sequences with the same pairs are the same
/// sequence: the order of the converged players does not depend on the
/// order in which the record is walked.
pub proof fn lemma_sorted_pairs_unique(a: Seq<(u64, u64)>, b: Seq<(u64, u64)>)
    requires
        strictly_sorted(a),
        strictly_sorted(b),
        forall|x: (u64, u64)| a.contains(x) <==> b.contains(x),
    ensures
        a == b,
    decreases a.len() + b.len(),
{
    if a.len() == 0 || b.len() == 0 {
        if a.len() > 0 {
            assert(a.contains(a[0]));
        }
        if b.len() > 0 {
            assert(b.contains(b[0]));
        }
        assert(a =~= b);
    } else {
        assert(a.contains(a[0]));
        assert(b.contains(b[0]));
        let j = choose|j: int| 0 <= j < b.len() && b[j] == a[0];
        let i = choose|i: int| 0 <= i < a.len() && a[i] == b[0];
        if j > 0 {
            assert(pair_before(b[0], b[j]));
            if i > 0 {
                assert(pair_before(a[0], a[i]));
            }
            assert(false);
        }
        let ta = a.drop_first();
        let tb = b.drop_first();
        assert forall|x: (u64, u64)| ta.contains(x) <==> tb.contains(x) by {
            if ta.contains(x) {
                let k = choose|k: int| 0 <= k < ta.len() && ta[k] == x;
                assert(a[k + 1] == x);
                assert(pair_before(a[0], a[k + 1]));
                assert(a.contains(x));
                let l = choose|l: int| 0 <= l < b.len() && b[l] == x;
                assert(l != 0);
                assert(tb[l - 1] == x);
            }
            if tb.contains(x) {
                let k = choose|k: int| 0 <= k < tb.len() && tb[k] == x;
                assert(b[k + 1] == x);
                assert(pair_before(b[0], b[k + 1]));
                assert(b.contains(x));
                let l = choose|l: int| 0 <= l < a.len() && a[l] == x;
                assert(l != 0);
                assert(ta[l - 1] == x);
            }
        }
        assert forall|p: int, q: int| 0 <= p < q < ta.len() implies pair_before(#[trigger] ta[p], #[trigger] ta[q]) by {
            assert(ta[p] == a[p + 1] && ta[q] == a[q + 1]);
        }
        assert forall|p: int, q: int| 0 <= p < q < tb.len() implies pair_before(#[trigger] tb[p], #[trigger] tb[q]) by {
            assert(tb[p] == b[p + 1] && tb[q] == b[q + 1]);
        }
        lemma_sorted_pairs_unique(ta, tb);
        assert(a =~= seq![a[0]] + ta);
        assert(b =~= seq![b[0]] + tb);
    }
}

} // verus!
