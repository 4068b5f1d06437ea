//! Choosing among candidate matches by their scores.
//!
//! A score is held as an order key: an integer that orders candidates as
//! their scores do.
use vstd::prelude::*;
use crate::constraint::ProposedMatch;
use crate::ids::PlayerId;
use crate::order::{is_stable_order, stable_order};

verus! {

/// `i` holds the largest key, and no later position holds as large a one:
/// the last of the best.
pub open spec fn is_last_best(keys: Seq<u64>, i: int) -> bool {
    &&& 0 <= i < keys.len()
    &&& forall|j: int| 0 <= j < keys.len() ==> keys[j] <= keys[i]
    &&& forall|j: int| i < j < keys.len() ==> keys[j] < keys[i]
}

/// Greedy selection: the single best candidate (the last of several
/// equally good ones); none from no candidates.
pub fn select_best(candidates: Vec<ProposedMatch>, keys: &[u64]) -> (res: Vec<ProposedMatch>)
    requires
        keys@.len() == candidates@.len(),
    ensures
        candidates@.len() == 0 ==> res@.len() == 0,
        candidates@.len() > 0 ==> exists|i: int| is_last_best(keys@, i) && res@ == seq![candidates@[i]],
{
    let mut candidates = candidates;
    if candidates.len() == 0 {
        return candidates;
    }
    let ghost orig = candidates@;
    let mut best: usize = 0;
    let mut i: usize = 1;
    while i < keys.len()
        invariant
            1 <= i <= keys@.len(),
            best < i,
            forall|j: int| 0 <= j < i ==> keys@[j] <= keys@[best as int],
            forall|j: int| best < j < i ==> keys@[j] < keys@[best as int],
        decreases keys@.len() - i,
    {
        if keys[i] >= keys[best] {
            best = i;
        }
        i = i + 1;
    }
    let chosen = candidates.remove(best);
    let mut res: Vec<ProposedMatch> = Vec::new();
    res.push(chosen);
    proof {
        assert(is_last_best(keys@, best as int));
        assert(res@ =~= seq![orig[best as int]]);
    }
    res
}

/// `i` is the first position that meets the bar.
pub open spec fn first_meeting(meets: Seq<bool>, i: int) -> bool {
    0 <= i < meets.len() && meets[i] && forall|j: int| 0 <= j < i ==> !meets[j]
}

/// Threshold selection: the first candidate that meets the bar, if any.
pub fn select_first_meeting(candidates: Vec<ProposedMatch>, meets: &[bool]) -> (res: Vec<ProposedMatch>)
    requires
        meets@.len() == candidates@.len(),
    ensures
        (exists|i: int| 0 <= i < meets@.len() && meets@[i]) ==> exists|i: int|
            #[trigger] first_meeting(meets@, i) && res@ == seq![candidates@[i]],
        (forall|i: int| 0 <= i < meets@.len() ==> !meets@[i]) ==> res@.len() == 0,
{
    let ghost input = candidates@;
    let mut pool = candidates;
    let mut i: usize = 0;
    while i < meets.len()
        invariant
            i <= meets@.len(),
            pool@ == input,
            input == candidates@,
            meets@.len() == input.len(),
            forall|j: int| 0 <= j < i ==> !meets@[j],
        decreases meets@.len() - i,
    {
        if meets[i] {
            let ghost orig = pool@;
            let chosen = pool.remove(i);
            let mut res: Vec<ProposedMatch> = Vec::new();
            res.push(chosen);
            proof {
                assert(res@ =~= seq![orig[i as int]]);
                assert(first_meeting(meets@, i as int) && res@ == seq![input[i as int]]);
            }
            return res;
        }
        i = i + 1;
    }
    Vec::new()
}

/// A copy of `ids`.
fn copy_players(ids: &Vec<PlayerId>) -> (res: Vec<PlayerId>)
    ensures
        res@ == ids@,
{
    let mut res: Vec<PlayerId> = Vec::new();
    let mut i: usize = 0;
    while i < ids.len()
        invariant
            i <= ids@.len(),
            res@ == ids@.subrange(0, i as int),
        decreases ids@.len() - i,
    {
        res.push(ids[i]);
        i = i + 1;
        assert(res@ =~= ids@.subrange(0, i as int));
    }
    assert(ids@.subrange(0, ids@.len() as int) =~= ids@);
    res
}

/// `res` holds the candidates in the order `perm` lists them.
pub open spec fn in_order_of(res: Seq<ProposedMatch>, candidates: Seq<ProposedMatch>, perm: Seq<usize>) -> bool {
    &&& res.len() == perm.len()
    &&& forall|i: int|
        0 <= i < res.len() ==> (#[trigger] res[i]).team_a@ == candidates[perm[i] as int].team_a@
            && res[i].team_b@ == candidates[perm[i] as int].team_b@
}

/// Weighted-objective selection: every candidate, by descending key, ties
/// in their given order.
pub fn select_weighted(candidates: Vec<ProposedMatch>, keys: &[u64]) -> (res: Vec<ProposedMatch>)
    requires
        keys@.len() == candidates@.len(),
    ensures
        exists|perm: Seq<usize>| #[trigger] is_stable_order(keys@, true, perm) && in_order_of(res@, candidates@, perm),
{
    let order = stable_order(keys, true);
    let n = order.len();
    let mut out: Vec<ProposedMatch> = Vec::new();
    let mut j: usize = 0;
    while j < n
        invariant
            j <= n,
            n == order@.len(),
            is_stable_order(keys@, true, order@),
            keys@.len() == candidates@.len(),
            out@.len() == j,
            forall|i: int|
                0 <= i < j ==> (#[trigger] out@[i]).team_a@ == candidates@[order@[i] as int].team_a@
                    && out@[i].team_b@ == candidates@[order@[i] as int].team_b@,
        decreases n - j,
    {
        let i = order[j];
        proof {
            assert(order@[j as int] < keys@.len());
        }
        let m = ProposedMatch { team_a: copy_players(&candidates[i].team_a), team_b: copy_players(&candidates[i].team_b) };
        out.push(m);
        j = j + 1;
    }
    proof {
        assert(in_order_of(out@, candidates@, order@));
    }
    out
}

} // verus!
