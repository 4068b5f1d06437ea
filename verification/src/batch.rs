//! Batch matchmaking: the whole queue at once, in join order, cut into
//! consecutive blocks of two teams.
use vstd::prelude::*;
use crate::candidate::{ids_at, players_at};
use crate::constraint::{satisfies_all, satisfies_constraints, MatchConstraint, ProposedMatch};
use crate::ids::{PlayerId, SimTime};
use crate::rng::SimRng;
use crate::order::{is_stable_order, stable_order};
use crate::queue::{Queue, QueueEntry};
use crate::world::World;

verus! {

/// The join times of the entries, as integer keys.
pub open spec fn join_keys(entries: Seq<QueueEntry>) -> Seq<u64> {
    entries.map_values(|e: QueueEntry| e.joined_at.micros)
}

/// The players of `ids` cut into consecutive blocks of `2 k`: team A takes
/// the first `k` of a block and team B the next `k`; a trailing partial
/// block forms nothing. With `k == 0` a single match of two empty teams.
pub open spec fn blocks(ids: Seq<PlayerId>, k: nat) -> Seq<(Seq<PlayerId>, Seq<PlayerId>)> {
    if k == 0 {
        seq![(Seq::<PlayerId>::empty(), Seq::<PlayerId>::empty())]
    } else {
        Seq::new(
            ids.len() / (2 * k),
            |b: int| (ids.subrange(2 * k * b, 2 * k * b + k), ids.subrange(2 * k * b + k, 2 * k * b + 2 * k)),
        )
    }
}

/// The teams of each proposed match.
pub open spec fn team_pairs(ms: Seq<ProposedMatch>) -> Seq<(Seq<PlayerId>, Seq<PlayerId>)> {
    ms.map_values(|m: ProposedMatch| (m.team_a@, m.team_b@))
}

/// The blocks that satisfy every constraint.
pub open spec fn accepted(
    bs: Seq<(Seq<PlayerId>, Seq<PlayerId>)>,
    cs: Seq<MatchConstraint>,
    w: Map<u64, crate::world::PlayerProfile>,
) -> Seq<(Seq<PlayerId>, Seq<PlayerId>)> {
    bs.filter(|p: (Seq<PlayerId>, Seq<PlayerId>)| satisfies_all(cs, p.0, p.1, w))
}

/// Batch matchmaker: processes the whole queue periodically, FIFO by join
/// time, filling team A then team B in consecutive blocks of two teams.
/// `interval_ticks` tells the caller how often to run it.
#[derive(Debug, Clone)]
pub struct BatchMatchmaker {
    pub interval_ticks: u64,
    pub constraints: Vec<MatchConstraint>,
}

impl BatchMatchmaker {
    /// A matchmaker without constraints.
    pub fn new(interval_ticks: u64) -> (m: BatchMatchmaker)
        ensures
            m.interval_ticks == interval_ticks,
            m.constraints@.len() == 0,
    {
        BatchMatchmaker { interval_ticks, constraints: Vec::new() }
    }

    /// Orders the queue by join time (ties keep queue order), cuts it into
    /// blocks of `2 team_size` players and proposes each block whose teams
    /// satisfy every constraint. The time and the generator play no part.
    pub fn find_matches(
        &self,
        queue: &Queue,
        world: &World,
        team_size: usize,
        _now: SimTime,
        _rng: &mut SimRng,
    ) -> (res: Vec<ProposedMatch>)
        requires
            2 * team_size <= usize::MAX,
        ensures
            exists|order: Seq<usize>|
                #[trigger] is_stable_order(join_keys(queue@), false, order) && team_pairs(res@)
                    == accepted(
                    blocks(ids_at(queue@, order), team_size as nat),
                    self.constraints@,
                    world@,
                ),
            final(_rng)@ == old(_rng)@,
    {
        let entries = queue.entries();
        let n = entries.len();
        let mut keys: Vec<u64> = Vec::new();
        let mut i: usize = 0;
        while i < n
            invariant
                i <= n,
                n == entries@.len(),
                keys@ == join_keys(entries@).subrange(0, i as int),
            decreases n - i,
        {
            keys.push(entries[i].joined_at.micros);
            i = i + 1;
            assert(keys@ =~= join_keys(entries@).subrange(0, i as int));
        }
        assert(keys@ =~= join_keys(entries@));
        let order = stable_order(keys.as_slice(), false);
        let ids = players_at(entries, &order, 0, n);
        assert(order@.subrange(0, n as int) =~= order@);
        let ghost all = blocks(ids@, team_size as nat);
        let ghost ok = |p: (Seq<PlayerId>, Seq<PlayerId>)|
            satisfies_all(self.constraints@, p.0, p.1, world@);
        let mut matches: Vec<ProposedMatch> = Vec::new();
        if team_size == 0 {
            let m = ProposedMatch { team_a: Vec::new(), team_b: Vec::new() };
            if satisfies_constraints(self.constraints.as_slice(), &m, world) {
                matches.push(m);
            }
            proof {
                reveal_with_fuel(Seq::filter, 2);
                assert(all.drop_last() =~= Seq::<(Seq<PlayerId>, Seq<PlayerId>)>::empty());
                assert(team_pairs(matches@) =~= all.filter(ok));
            }
            return matches;
        }
        let width = 2 * team_size;
        let count = n / width;
        proof {
            assert(count * width <= n) by (nonlinear_arith)
                requires
                    count == n / width,
                    width > 0,
            ;
        }
        let mut b: usize = 0;
        let mut start: usize = 0;
        while b < count
            invariant
                b <= count,
                width == 2 * team_size,
                team_size > 0,
                count * width <= n,
                n == ids@.len(),
                n <= usize::MAX,
                start == b * width,
                all == blocks(ids@, team_size as nat),
                all.len() == count,
                ok == (|p: (Seq<PlayerId>, Seq<PlayerId>)|
                    satisfies_all(self.constraints@, p.0, p.1, world@)),
                team_pairs(matches@) == all.subrange(0, b as int).filter(ok),
            decreases count - b,
        {
            proof {
                lemma_block_in_range(b as int, count as int, width as int, n as int);
                assert(2 * team_size * b == b * width) by (nonlinear_arith)
                    requires
                        width == 2 * team_size,
                ;
            }
            let team_a = copy_range(&ids, start, start + team_size);
            let team_b = copy_range(&ids, start + team_size, start + width);
            let m = ProposedMatch { team_a, team_b };
            let ghost before = matches@;
            proof {
                assert(all[b as int] == (m.team_a@, m.team_b@));
            }
            if satisfies_constraints(self.constraints.as_slice(), &m, world) {
                matches.push(m);
            }
            proof {
                reveal(Seq::filter);
                assert(all.subrange(0, b + 1).drop_last() =~= all.subrange(0, b as int));
                assert(all.subrange(0, b + 1).last() == all[b as int]);
                assert(team_pairs(matches@) =~= all.subrange(0, b + 1).filter(ok));
            }
            b = b + 1;
            start = start + width;
        }
        assert(all.subrange(0, count as int) =~= all);
        matches
    }
}

pub(crate) proof fn lemma_block_in_range(b: int, count: int, width: int, n: int)
    requires
        0 <= b < count,
        0 < width,
        count * width <= n,
    ensures
        b * width + width <= n,
        (b + 1) * width == b * width + width,
{
    assert(b * width + width <= count * width) by (nonlinear_arith)
        requires
            0 <= b < count,
            0 < width,
    ;
    assert((b + 1) * width == b * width + width) by (nonlinear_arith);
}

/// `ids[from .. to]`.
pub(crate) fn copy_range(ids: &Vec<PlayerId>, from: usize, to: usize) -> (res: Vec<PlayerId>)
    requires
        from <= to <= ids@.len(),
    ensures
        res@ == ids@.subrange(from as int, to as int),
{
    let mut res: Vec<PlayerId> = Vec::new();
    let mut i: usize = from;
    while i < to
        invariant
            from <= i <= to,
            to <= ids@.len(),
            res@ == ids@.subrange(from as int, i as int),
        decreases to - i,
    {
        res.push(ids[i]);
        i = i + 1;
        assert(res@ =~= ids@.subrange(from as int, i as int));
    }
    res
}

/// Fewer players than two full teams form no block.
pub proof fn lemma_short_queue_no_blocks(ids: Seq<PlayerId>, k: nat)
    requires
        k > 0,
        ids.len() < 2 * k,
    ensures
        blocks(ids, k).len() == 0,
{
    assert(ids.len() / (2 * k) == 0) by (nonlinear_arith)
        requires
            ids.len() < 2 * k,
            k > 0,
    ;
}

/// Blocks take each player at most once: when no player is listed twice,
/// no player is on both teams of a block or in two blocks.
pub proof fn lemma_blocks_disjoint(ids: Seq<PlayerId>, k: nat, b1: int, b2: int, x: PlayerId)
    requires
        k > 0,
        forall|i: int, j: int| 0 <= i < j < ids.len() ==> ids[i] != ids[j],
        0 <= b1 < blocks(ids, k).len(),
        0 <= b2 < blocks(ids, k).len(),
    ensures
        !(blocks(ids, k)[b1].0.contains(x) && blocks(ids, k)[b1].1.contains(x)),
        b1 != b2 ==> !((blocks(ids, k)[b1].0 + blocks(ids, k)[b1].1).contains(x) && (blocks(ids, k)[b2].0
            + blocks(ids, k)[b2].1).contains(x)),
{
    let w = 2 * k;
    let n = ids.len();
    assert(w * (n / w) <= n) by (nonlinear_arith)
        requires
            w > 0,
    ;
    // the players of block `b` are `ids[w * b .. w * b + w]`
    assert forall|b: int| 0 <= b < blocks(ids, k).len() implies #[trigger] (blocks(ids, k)[b].0 + blocks(ids, k)[b].1)
        =~= ids.subrange(w * b, w * b + w) && w * b + w <= n by {
        assert(w * b + w <= w * (n / w)) by (nonlinear_arith)
            requires
                0 <= b < n / w,
                w > 0,
        ;
        assert(2 * k * b == w * b);
    }
    let p1 = blocks(ids, k)[b1].0 + blocks(ids, k)[b1].1;
    let p2 = blocks(ids, k)[b2].0 + blocks(ids, k)[b2].1;
    if blocks(ids, k)[b1].0.contains(x) && blocks(ids, k)[b1].1.contains(x) {
        let i = choose|i: int| 0 <= i < blocks(ids, k)[b1].0.len() && blocks(ids, k)[b1].0[i] == x;
        let j = choose|j: int| 0 <= j < blocks(ids, k)[b1].1.len() && blocks(ids, k)[b1].1[j] == x;
        assert(p1[i] == x);
        assert(p1[k + j] == x);
        assert(ids[w * b1 + i] == x);
        assert(ids[w * b1 + k + j] == x);
    }
    if b1 != b2 && p1.contains(x) && p2.contains(x) {
        let i = choose|i: int| 0 <= i < p1.len() && p1[i] == x;
        let j = choose|j: int| 0 <= j < p2.len() && p2[j] == x;
        assert(ids[w * b1 + i] == x);
        assert(ids[w * b2 + j] == x);
        assert(w * b1 + i != w * b2 + j) by (nonlinear_arith)
            requires
                b1 != b2,
                0 <= i < w,
                0 <= j < w,
                w > 0,
        ;
    }
}

} // verus!
