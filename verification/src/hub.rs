//! Hub-and-spoke matchmaking: the queue split by region, each region handed
//! to its spoke while it fits the spoke's capacity, and formed by the hub in
//! join order when it overflows.
use vstd::prelude::*;
use crate::batch::{blocks, copy_range, join_keys, lemma_block_in_range, team_pairs};
use crate::candidate::ids_at;
use crate::constraint::ProposedMatch;
use crate::ids::{PlayerId, Region};
use crate::order::{is_stable_order, stable_order};
use crate::queue::QueueEntry;

verus! {

/// The positions of the entries of `region`, in queue order.
pub open spec fn region_positions_of(entries: Seq<QueueEntry>, region: Region) -> Seq<usize>
    decreases entries.len(),
{
    if entries.len() == 0 {
        Seq::empty()
    } else {
        region_positions_of(entries.drop_last(), region) + if entries.last().region == region {
            seq![(entries.len() - 1) as usize]
        } else {
            Seq::empty()
        }
    }
}

/// The entries at `positions`, in that order.
pub open spec fn selected(entries: Seq<QueueEntry>, positions: Seq<usize>) -> Seq<QueueEntry> {
    positions.map_values(|p: usize| entries[p as int])
}

/// How the hub forms the players of an overflowing region, in join order:
/// consecutive blocks of `2 k`, team A the first `k` of a block and team B
/// the next `k`, a trailing partial block forming nothing. With `k == 0`
/// the hub emits a match of two empty teams, then one match per player
/// with that player alone on team A.
pub open spec fn overflow_blocks(ids: Seq<PlayerId>, k: nat) -> Seq<(Seq<PlayerId>, Seq<PlayerId>)> {
    if k == 0 {
        seq![(Seq::<PlayerId>::empty(), Seq::<PlayerId>::empty())] + Seq::new(
            ids.len(),
            |i: int| (seq![ids[i]], Seq::<PlayerId>::empty()),
        )
    } else {
        blocks(ids, k)
    }
}

/// Whether a region of `count` entries is handed to its spoke: it fits the
/// spoke's capacity. Otherwise the hub forms it itself.
pub fn fits_spoke(count: usize, spoke_capacity: usize) -> (b: bool)
    ensures
        b == (count <= spoke_capacity),
{
    count <= spoke_capacity
}

/// The positions of the entries of `region`, in queue order.
pub fn region_positions(entries: &[QueueEntry], region: Region) -> (res: Vec<usize>)
    ensures
        res@ == region_positions_of(entries@, region),
        forall|i: int| 0 <= i < res@.len() ==> #[trigger] res@[i] < entries@.len() && entries@[res@[i] as int].region
            == region,
{
    let mut res: Vec<usize> = Vec::new();
    let mut i: usize = 0;
    while i < entries.len()
        invariant
            i <= entries@.len(),
            res@ == region_positions_of(entries@.subrange(0, i as int), region),
            forall|k: int| 0 <= k < res@.len() ==> #[trigger] res@[k] < i && entries@[res@[k] as int].region == region,
        decreases entries@.len() - i,
    {
        proof {
            assert(entries@.subrange(0, i as int + 1).drop_last() =~= entries@.subrange(0, i as int));
            assert(entries@.subrange(0, i as int + 1).last() == entries@[i as int]);
        }
        if entries[i].region == region {
            res.push(i);
        }
        i = i + 1;
    }
    assert(entries@.subrange(0, entries@.len() as int) =~= entries@);
    res
}

/// The hub's matches for the entries at `positions` (one overflowing
/// region): ordered by join time (ties keep their order), then formed as
/// [`overflow_blocks`] says.
pub fn overflow_matches(entries: &[QueueEntry], positions: &[usize], team_size: usize) -> (res: Vec<
    ProposedMatch,
>)
    requires
        forall|i: int| 0 <= i < positions@.len() ==> #[trigger] positions@[i] < entries@.len(),
        2 * team_size <= usize::MAX,
    ensures
        exists|order: Seq<usize>|
            #[trigger] is_stable_order(join_keys(selected(entries@, positions@)), false, order) && team_pairs(res@)
                == overflow_blocks(ids_at(selected(entries@, positions@), order), team_size as nat),
{
    let ghost sel = selected(entries@, positions@);
    let n = positions.len();
    let mut keys: Vec<u64> = Vec::new();
    let mut i: usize = 0;
    while i < n
        invariant
            i <= n,
            n == positions@.len(),
            sel == selected(entries@, positions@),
            forall|k: int| 0 <= k < positions@.len() ==> #[trigger] positions@[k] < entries@.len(),
            keys@ == join_keys(sel).subrange(0, i as int),
        decreases n - i,
    {
        keys.push(entries[positions[i]].joined_at.micros);
        i = i + 1;
        assert(keys@ =~= join_keys(sel).subrange(0, i as int));
    }
    assert(keys@ =~= join_keys(sel));
    let order = stable_order(keys.as_slice(), false);
    let mut ids: Vec<PlayerId> = Vec::new();
    let mut j: usize = 0;
    while j < n
        invariant
            j <= n,
            n == positions@.len(),
            order@.len() == n,
            sel == selected(entries@, positions@),
            forall|k: int| 0 <= k < positions@.len() ==> #[trigger] positions@[k] < entries@.len(),
            forall|k: int| 0 <= k < order@.len() ==> #[trigger] order@[k] < n,
            ids@ == ids_at(sel, order@.subrange(0, j as int)),
        decreases n - j,
    {
        let p = positions[order[j]];
        ids.push(entries[p].player_id);
        j = j + 1;
        assert(ids@ =~= ids_at(sel, order@.subrange(0, j as int)));
    }
    assert(order@.subrange(0, n as int) =~= order@);
    let ghost all = overflow_blocks(ids@, team_size as nat);
    let mut matches: Vec<ProposedMatch> = Vec::new();
    if team_size == 0 {
        matches.push(ProposedMatch { team_a: Vec::new(), team_b: Vec::new() });
        let mut k: usize = 0;
        while k < n
            invariant
                k <= n,
                n == ids@.len(),
                all == overflow_blocks(ids@, 0),
                matches@.len() == k + 1,
                team_pairs(matches@) == all.subrange(0, k as int + 1),
            decreases n - k,
        {
            let mut a: Vec<PlayerId> = Vec::new();
            a.push(ids[k]);
            let m = ProposedMatch { team_a: a, team_b: Vec::new() };
            proof {
                assert(all[k as int + 1] == (m.team_a@, m.team_b@));
            }
            let ghost before = matches@;
            let ghost mv = m;
            matches.push(m);
            k = k + 1;
            assert(matches@ == before.push(mv));
            assert forall|i: int| 0 <= i < matches@.len() implies #[trigger] team_pairs(matches@)[i] == all.subrange(
                0,
                k as int + 1,
            )[i] by {
                assert(team_pairs(matches@)[i] == (matches@[i].team_a@, matches@[i].team_b@));
                if i < before.len() {
                    assert(matches@[i] == before[i]);
                    assert(team_pairs(before)[i] == (before[i].team_a@, before[i].team_b@));
                    assert(team_pairs(before)[i] == all.subrange(0, k as int)[i]);
                } else {
                    assert(matches@[i] == mv);
                    assert(i == k);
                    assert(all.subrange(0, k as int + 1)[i] == all[k as int]);
                }
            }
            assert(team_pairs(matches@) =~= all.subrange(0, k as int + 1));
        }
        assert(all.subrange(0, n as int + 1) =~= all);
        return matches;
    }
    let width = 2 * team_size;
    let count = n / width;
    proof {
        assert(count * width <= n) by (nonlinear_arith)
            requires
                count == n / width,
                width > 0,
        ;
    }
    let mut b: usize = 0;
    let mut start: usize = 0;
    while b < count
        invariant
            b <= count,
            width == 2 * team_size,
            team_size > 0,
            count * width <= n,
            n == ids@.len(),
            n <= usize::MAX,
            count == n / width,
            start == b * width,
            all == blocks(ids@, team_size as nat),
            matches@.len() == b,
            team_pairs(matches@) == all.subrange(0, b as int),
        decreases count - b,
    {
        proof {
            lemma_block_in_range(b as int, count as int, width as int, n as int);
            assert(2 * team_size * b == b * width) by (nonlinear_arith)
                requires
                    width == 2 * team_size,
            ;
        }
        let team_a = copy_range(&ids, start, start + team_size);
        let team_b = copy_range(&ids, start + team_size, start + width);
        let m = ProposedMatch { team_a, team_b };
        proof {
            assert(all[b as int] == (m.team_a@, m.team_b@));
        }
        let ghost before = matches@;
        let ghost mv = m;
        matches.push(m);
        b = b + 1;
        start = start + width;
        assert(matches@ == before.push(mv));
        assert forall|i: int| 0 <= i < matches@.len() implies #[trigger] team_pairs(matches@)[i] == all.subrange(
            0,
            b as int,
        )[i] by {
            assert(team_pairs(matches@)[i] == (matches@[i].team_a@, matches@[i].team_b@));
            if i < before.len() {
                assert(matches@[i] == before[i]);
                assert(team_pairs(before)[i] == (before[i].team_a@, before[i].team_b@));
                assert(team_pairs(before)[i] == all.subrange(0, b - 1)[i]);
            } else {
                assert(matches@[i] == mv);
                assert(i == b - 1);
                assert(all.subrange(0, b as int)[i] == all[b - 1]);
            }
        }
        assert(team_pairs(matches@) =~= all.subrange(0, b as int));
    }
    assert(all.subrange(0, count as int) =~= all);
    matches
}

} // verus!
