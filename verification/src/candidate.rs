//! Candidate match generation: what matches the system could consider,
//! apart from how it chooses among them.
use vstd::prelude::*;
use crate::combinations::{binomial, combinations, combos, lemma_combos_len, views};
use crate::constraint::ProposedMatch;
use crate::ids::PlayerId;
use crate::order::{is_permutation, is_stable_order, stable_order};
use crate::queue::{Queue, QueueEntry};
use crate::rng::{
    apply_swaps, bits_draws, fy_run, partners_fit, partners_from_bits, rearranged, shuffle_sim, swap_count, Draw, SimRng,
};
use vstd::math::min;

verus! {

/// The sizes of the two teams of a match.
#[derive(Debug, Clone, Copy)]
pub struct TeamComposition {
    pub team_size_a: usize,
    pub team_size_b: usize,
}

/// The players of the queue entries at positions `idx`, in that order.
pub open spec fn ids_at(entries: Seq<QueueEntry>, idx: Seq<usize>) -> Seq<PlayerId> {
    idx.map_values(|i: usize| entries[i as int].player_id)
}

/// The positions `0 .. n`.
pub open spec fn positions(n: nat) -> Seq<usize> {
    Seq::new(n, |i: int| i as usize)
}

/// The positions `0 .. n`, in order.
pub fn positions_vec(n: usize) -> (v: Vec<usize>)
    ensures
        v@ == positions(n as nat),
{
    let mut v: Vec<usize> = Vec::new();
    let mut i: usize = 0;
    while i < n
        invariant
            i <= n,
            v@ == positions(i as nat),
        decreases n - i,
    {
        v.push(i);
        i = i + 1;
        assert(v@ =~= positions(i as nat));
    }
    v
}

/// The players at positions `idx[from .. to]` of `entries`.
pub fn players_at(entries: &[QueueEntry], idx: &Vec<usize>, from: usize, to: usize) -> (res: Vec<PlayerId>)
    requires
        from <= to <= idx@.len(),
        forall|i: int| 0 <= i < idx@.len() ==> #[trigger] idx@[i] < entries@.len(),
    ensures
        res@ == ids_at(entries@, idx@.subrange(from as int, to as int)),
{
    let mut res: Vec<PlayerId> = Vec::new();
    let mut i: usize = from;
    while i < to
        invariant
            from <= i <= to,
            to <= idx@.len(),
            forall|k: int| 0 <= k < idx@.len() ==> #[trigger] idx@[k] < entries@.len(),
            res@ == ids_at(entries@, idx@.subrange(from as int, i as int)),
        decreases to - i,
    {
        res.push(entries[idx[i]].player_id);
        i = i + 1;
        assert(res@ =~= ids_at(entries@, idx@.subrange(from as int, i as int)));
    }
    res
}

/// Exhaustive generator: all valid combinations (small queues only).
#[derive(Debug, Clone, Copy)]
pub struct ExhaustiveGenerator;

impl ExhaustiveGenerator {
    /// One candidate per selection of `a + b` queue positions, in
    /// lexicographic order of the selections: the first `a` selected
    /// players form team A, the others team B. None when the queue is too
    /// short.
    pub fn generate_candidates(&self, queue: &Queue, teams: &TeamComposition) -> (res: Vec<
        ProposedMatch,
    >)
        requires
            teams.team_size_a + teams.team_size_b <= usize::MAX,
        ensures
            queue@.len() < teams.team_size_a + teams.team_size_b ==> res@.len() == 0,
            queue@.len() >= teams.team_size_a + teams.team_size_b ==> res@.len() == binomial(
                queue@.len(),
                (teams.team_size_a + teams.team_size_b) as nat,
            ),
            queue@.len() >= teams.team_size_a + teams.team_size_b ==> {
                let all = combos(
                    positions(queue@.len()),
                    (teams.team_size_a + teams.team_size_b) as nat,
                );
                &&& res@.len() == all.len()
                &&& forall|i: int|
                    0 <= i < res@.len() ==> (#[trigger] res@[i]).team_a@ == all[i].take(
                        teams.team_size_a as int,
                    ).map_values(|p: usize| queue@[p as int].player_id) && res@[i].team_b@
                        == all[i].skip(teams.team_size_a as int).map_values(
                        |p: usize| queue@[p as int].player_id,
                    )
            },
    {
        let entries = queue.entries();
        let size_a = teams.team_size_a;
        let size_b = teams.team_size_b;
        let total = size_a + size_b;
        if entries.len() < total {
            return Vec::new();
        }
        let indices = positions_vec(entries.len());
        let all = combinations(indices.as_slice(), total);
        let ghost spec_all = combos(positions(queue@.len()), total as nat);
        let mut candidates: Vec<ProposedMatch> = Vec::new();
        let mut c: usize = 0;
        while c < all.len()
            invariant
                c <= all@.len(),
                entries@ == queue@,
                views(all@) == spec_all,
                spec_all == combos(positions(queue@.len()), total as nat),
                total == size_a + size_b,
                candidates@.len() == c,
                forall|i: int|
                    0 <= i < c ==> (#[trigger] candidates@[i]).team_a@ == spec_all[i].take(
                        size_a as int,
                    ).map_values(|p: usize| queue@[p as int].player_id) && candidates@[i].team_b@
                        == spec_all[i].skip(size_a as int).map_values(
                        |p: usize| queue@[p as int].player_id,
                    ),
            decreases all@.len() - c,
        {
            let combo = &all[c];
            proof {
                assert(views(all@).len() == all@.len());
                assert(views(all@)[c as int] == combo@);
                crate::combinations::lemma_combos_are_selections(
                    positions(queue@.len()),
                    total as nat,
                    c as int,
                );
                let idx = choose|idx: Seq<int>|
                    crate::combinations::picks(positions(queue@.len()), combo@, idx);
                assert forall|i: int| 0 <= i < combo@.len() implies #[trigger] combo@[i] < entries@.len() by {
                    assert(0 <= idx[i] < positions(queue@.len()).len());
                    assert(combo@[i] == positions(queue@.len())[idx[i]]);
                }
            }
            let team_a = players_at(entries, combo, 0, size_a);
            let team_b = players_at(entries, combo, size_a, combo.len());
            proof {
                assert(team_a@ =~= spec_all[c as int].take(size_a as int).map_values(
                    |p: usize| queue@[p as int].player_id,
                ));
                assert(team_b@ =~= spec_all[c as int].skip(size_a as int).map_values(
                    |p: usize| queue@[p as int].player_id,
                ));
            }
            candidates.push(ProposedMatch { team_a, team_b });
            c = c + 1;
        }
        proof {
            lemma_combos_len(positions(queue@.len()), total as nat);
        }
        candidates
    }
}

} // verus!

verus! {

proof fn lemma_block_fits(c: int, max: int, total: int, len: int)
    requires
        0 <= c < max,
        0 <= total,
        max * total <= len,
    ensures
        c * total + total <= len,
        c * total + total == (c + 1) * total,
{
    assert(c * total + total <= max * total) by (nonlinear_arith)
        requires
            0 <= c < max,
            0 <= total,
    ;
    assert(c * total + total == (c + 1) * total) by (nonlinear_arith);
}

/// Greedy nearest generator: fills teams with neighbours in rating order.
#[derive(Debug, Clone, Copy)]
pub struct GreedyNearestGenerator {
    pub max_candidates: usize,
}

impl GreedyNearestGenerator {
    /// Orders the queue by rating (`rating_keys[i]` orders entry `i`, ties
    /// keep queue order) and cuts that order into consecutive blocks of
    /// `a + b` players: at most `max_candidates` blocks, each giving its first
    /// `a` players to team A and the rest to team B. None when the queue is
    /// too short.
    pub fn generate_candidates(
        &self,
        queue: &Queue,
        teams: &TeamComposition,
        rating_keys: &[u64],
    ) -> (res: Vec<ProposedMatch>)
        requires
            rating_keys@.len() == queue@.len(),
            0 < teams.team_size_a + teams.team_size_b <= usize::MAX,
        ensures
            ({
                let total = teams.team_size_a + teams.team_size_b;
                let a = teams.team_size_a as int;
                &&& queue@.len() < total ==> res@.len() == 0
                &&& queue@.len() >= total ==> exists|order: Seq<usize>|
                    #[trigger] is_stable_order(rating_keys@, false, order) && res@.len() == min(
                        self.max_candidates as int,
                        queue@.len() as int / total as int,
                    ) && forall|c: int|
                        0 <= c < res@.len() ==> (#[trigger] res@[c]).team_a@ == ids_at(
                            queue@,
                            order.subrange(c * total, c * total + a),
                        ) && res@[c].team_b@ == ids_at(
                            queue@,
                            order.subrange(c * total + a, (c + 1) * total),
                        )
            }),
    {
        let entries = queue.entries();
        let size_a = teams.team_size_a;
        let size_b = teams.team_size_b;
        let total = size_a + size_b;
        if entries.len() < total {
            return Vec::new();
        }
        let order = stable_order(rating_keys, false);
        let blocks = entries.len() / total;
        let max = if self.max_candidates < blocks {
            self.max_candidates
        } else {
            blocks
        };
        proof {
            assert(max * total <= blocks * total) by (nonlinear_arith)
                requires
                    max <= blocks,
            ;
            assert(blocks * total <= entries@.len()) by (nonlinear_arith)
                requires
                    blocks as int == entries@.len() as int / total as int,
                    total > 0,
            ;
        }
        let mut candidates: Vec<ProposedMatch> = Vec::new();
        let mut c: usize = 0;
        let mut start: usize = 0;
        while c < max
            invariant
                c <= max,
                start == c * total,
                max * total <= entries@.len(),
                entries@.len() <= usize::MAX,
                entries@ == queue@,
                order@.len() == entries@.len(),
                total == size_a + size_b,
                total > 0,
                forall|i: int| 0 <= i < order@.len() ==> #[trigger] order@[i] < entries@.len(),
                candidates@.len() == c,
                forall|i: int|
                    0 <= i < c ==> (#[trigger] candidates@[i]).team_a@ == ids_at(
                        queue@,
                        order@.subrange(i * total, i * total + size_a),
                    ) && candidates@[i].team_b@ == ids_at(
                        queue@,
                        order@.subrange(i * total + size_a, (i + 1) * total),
                    ),
            decreases max - c,
        {
            proof {
                lemma_block_fits(c as int, max as int, total as int, entries@.len() as int);
            }
            let team_a = players_at(entries, &order, start, start + size_a);
            let team_b = players_at(entries, &order, start + size_a, start + total);
            candidates.push(ProposedMatch { team_a, team_b });
            c = c + 1;
            start = start + total;
            assert(start == c * total) by (nonlinear_arith)
                requires
                    start == (c - 1) * total + total,
            ;
        }
        candidates
    }
}

/// `m` takes its teams from the queue positions `perm` rearranges into:
/// team A from the first `a` of them, team B from the `b` after.
pub open spec fn drawn_from(m: ProposedMatch, entries: Seq<QueueEntry>, a: int, b: int) -> bool {
    exists|perm: Seq<usize>|
        #[trigger] is_permutation(perm, entries.len()) && m.team_a@ == ids_at(
            entries,
            perm.subrange(0, a),
        ) && m.team_b@ == ids_at(entries, perm.subrange(a, a + b))
}

/// The positions `0 .. n` shuffled with the 64-bit values `bs`.
pub open spec fn shuffled_positions(n: nat, bs: Seq<u64>) -> Seq<usize> {
    fy_run(positions(n), partners_from_bits(n, bs))
}

/// The teams the values `bs` draw from `entries`: team A from the first
/// `a` shuffled positions, team B from the `b` after.
pub open spec fn teams_from_bits(entries: Seq<QueueEntry>, a: int, b: int, bs: Seq<u64>) -> (
    Seq<PlayerId>,
    Seq<PlayerId>,
) {
    let p = shuffled_positions(entries.len(), bs);
    (ids_at(entries, p.subrange(0, a)), ids_at(entries, p.subrange(a, a + b)))
}

/// The history of drawing the values of each of `bss` in turn.
pub open spec fn bits_history(bss: Seq<Seq<u64>>) -> Seq<Draw>
    decreases bss.len(),
{
    if bss.len() == 0 {
        Seq::empty()
    } else {
        bits_history(bss.drop_last()) + bits_draws(bss.last())
    }
}

/// The partners that the values `bs` give for `n` items fit.
proof fn lemma_partners_from_bits_fit(n: nat, bs: Seq<u64>)
    requires
        bs.len() == swap_count(n),
        n <= u64::MAX,
    ensures
        partners_fit(n, partners_from_bits(n, bs)),
        partners_from_bits(n, bs).len() == swap_count(n),
{
    assert forall|k: int| 0 <= k < partners_from_bits(n, bs).len() implies #[trigger] partners_from_bits(n, bs)[k]
        < n - k by {
        let m = (n - k) as u64;
        assert(m > 0);
        assert(bs[k] % m < m);
    }
}

/// The candidate that the 64-bit values `bits` draw from `entries`: the
/// positions shuffled by Fisher-Yates with partner `bits[k] % (n - k)` for
/// the `k`-th swap, team A from the first `team_size_a` of them and team B
/// from the next `team_size_b`.
pub fn candidate_from_bits(entries: &[QueueEntry], teams: &TeamComposition, bits: &[u64]) -> (m: ProposedMatch)
    requires
        bits@.len() == swap_count(entries@.len()),
        teams.team_size_a + teams.team_size_b <= entries@.len(),
    ensures
        (m.team_a@, m.team_b@) == teams_from_bits(
            entries@,
            teams.team_size_a as int,
            teams.team_size_b as int,
            bits@,
        ),
{
    let n = entries.len();
    let mut js: Vec<usize> = Vec::new();
    let mut k: usize = 0;
    while k < bits.len()
        invariant
            k <= bits@.len(),
            bits@.len() == swap_count(n as nat),
            n == entries@.len(),
            js@ == partners_from_bits(n as nat, bits@).subrange(0, k as int),
        decreases bits@.len() - k,
    {
        let below = (n - k) as u64;
        js.push((bits[k] % below) as usize);
        k = k + 1;
        assert(js@ =~= partners_from_bits(n as nat, bits@).subrange(0, k as int));
    }
    proof {
        assert(js@ =~= partners_from_bits(n as nat, bits@));
        lemma_partners_from_bits_fit(n as nat, bits@);
    }
    let mut idx = positions_vec(n);
    apply_swaps(idx.as_mut_slice(), js.as_slice());
    proof {
        lemma_fy_positions_in_range(n as nat, js@);
    }
    let team_a = players_at(entries, &idx, 0, teams.team_size_a);
    let team_b = players_at(entries, &idx, teams.team_size_a, teams.team_size_a + teams.team_size_b);
    ProposedMatch { team_a, team_b }
}

/// Shuffling the positions `0 .. n` keeps every position below `n`.
proof fn lemma_fy_positions_in_range(n: nat, js: Seq<usize>)
    requires
        partners_fit(n, js),
        js.len() <= n,
    ensures
        fy_run(positions(n), js).len() == n,
        forall|i: int| 0 <= i < n ==> #[trigger] fy_run(positions(n), js)[i] < n,
    decreases js.len(),
{
    if js.len() > 0 {
        assert forall|k: int| 0 <= k < js.drop_last().len() implies #[trigger] js.drop_last()[k] < n - k by {
            assert(js.drop_last()[k] == js[k]);
        }
        lemma_fy_positions_in_range(n, js.drop_last());
        assert(js[js.len() - 1] < n - (js.len() - 1));
    }
}

/// Random sampling generator: draws random compositions.
#[derive(Debug, Clone, Copy)]
pub struct RandomSamplingGenerator {
    pub samples: usize,
}

impl RandomSamplingGenerator {
    /// `samples` candidates, each from a fresh shuffle of the queue
    /// positions: the first `a` shuffled players form team A, the next `b`
    /// team B. None, and nothing drawn, when the queue is too short. Each
    /// candidate is the one `candidate_from_bits` gives for the values its
    /// shuffle drew, which the generator's history records in turn.
    pub fn generate_candidates(&self, queue: &Queue, teams: &TeamComposition, rng: &mut SimRng) -> (res:
        Vec<ProposedMatch>)
        requires
            teams.team_size_a + teams.team_size_b <= usize::MAX,
        ensures
            queue@.len() < teams.team_size_a + teams.team_size_b ==> res@.len() == 0 && final(rng)@ == old(rng)@,
            queue@.len() >= teams.team_size_a + teams.team_size_b ==> res@.len() == self.samples,
            forall|i: int|
                0 <= i < res@.len() ==> drawn_from(
                    #[trigger] res@[i],
                    queue@,
                    teams.team_size_a as int,
                    teams.team_size_b as int,
                ),
            queue@.len() >= teams.team_size_a + teams.team_size_b ==> exists|bss: Seq<Seq<u64>>|
                #![trigger bits_history(bss)]
                bss.len() == self.samples && final(rng)@ == old(rng)@ + bits_history(bss) && forall|i: int|
                    0 <= i < bss.len() ==> (#[trigger] bss[i]).len() == swap_count(queue@.len()) && (
                    res@[i].team_a@,
                    res@[i].team_b@,
                ) == teams_from_bits(queue@, teams.team_size_a as int, teams.team_size_b as int, bss[i]),
    {
        let entries = queue.entries();
        let size_a = teams.team_size_a;
        let size_b = teams.team_size_b;
        let total = size_a + size_b;
        if entries.len() < total {
            return Vec::new();
        }
        let ghost start = rng@;
        let ghost mut bss: Seq<Seq<u64>> = Seq::empty();
        let mut candidates: Vec<ProposedMatch> = Vec::new();
        let mut s: usize = 0;
        while s < self.samples
            invariant
                s <= self.samples,
                entries@ == queue@,
                total == size_a + size_b,
                total <= entries@.len(),
                candidates@.len() == s,
                bss.len() == s,
                rng@ == start + bits_history(bss),
                forall|i: int|
                    0 <= i < s ==> drawn_from(
                        #[trigger] candidates@[i],
                        queue@,
                        size_a as int,
                        size_b as int,
                    ),
                forall|i: int|
                    0 <= i < s ==> (#[trigger] bss[i]).len() == swap_count(queue@.len()) && (
                        candidates@[i].team_a@,
                        candidates@[i].team_b@,
                    ) == teams_from_bits(queue@, size_a as int, size_b as int, bss[i]),
            decreases self.samples - s,
        {
            let mut indices = positions_vec(entries.len());
            let ghost start_idx = indices@;
            let ghost rng_before = rng@;
            shuffle_sim(&mut indices, rng);
            let ghost perm = choose|perm: Seq<usize>| rearranged(start_idx, indices@, perm);
            let ghost bs = choose|bs: Seq<u64>|
                bs.len() == swap_count(start_idx.len()) && rng@ == rng_before + bits_draws(bs) && indices@
                    == fy_run(start_idx, partners_from_bits(start_idx.len(), bs));
            proof {
                assert forall|i: int| 0 <= i < indices@.len() implies #[trigger] indices@[i] < entries@.len() by {
                    assert(indices@[i] == start_idx[perm[i] as int]);
                }
                assert forall|i: int, j: int| 0 <= i < j < indices@.len() implies indices@[i] != indices@[j] by {
                    assert(indices@[i] == start_idx[perm[i] as int]);
                    assert(indices@[j] == start_idx[perm[j] as int]);
                }
                assert(is_permutation(indices@, entries@.len()));
            }
            let team_a = players_at(entries, &indices, 0, size_a);
            let team_b = players_at(entries, &indices, size_a, total);
            let m = ProposedMatch { team_a, team_b };
            assert(drawn_from(m, queue@, size_a as int, size_b as int));
            candidates.push(m);
            proof {
                let bss2 = bss.push(bs);
                assert(bss2.drop_last() =~= bss);
                assert(bits_history(bss2) == bits_history(bss) + bits_draws(bs));
                assert(rng@ =~= start + bits_history(bss2));
                assert(indices@ == shuffled_positions(queue@.len(), bs));
                assert forall|i: int| 0 <= i < s + 1 implies (#[trigger] bss2[i]).len() == swap_count(queue@.len()) && (
                    candidates@[i].team_a@,
                    candidates@[i].team_b@,
                ) == teams_from_bits(queue@, size_a as int, size_b as int, bss2[i]) by {
                    if i < s {
                        assert(bss2[i] == bss[i]);
                    }
                }
                bss = bss2;
            }
            s = s + 1;
        }
        candidates
    }
}

} // verus!
