//! Matching within a skill window: each anchor, in queue order, takes the
//! compatible free players in queue order until two teams are full.
use vstd::prelude::*;
use crate::constraint::ProposedMatch;
use crate::ids::PlayerId;
use crate::party::contains_player;
use crate::queue::{distinct_players, QueueEntry};
use crate::search::{
    all_distinct, grow_pair, in_gap, lemma_add_match, lemma_used_grows, lemma_players_grow, matches_from_queue,
    players_of, push_all, queued,
};
use crate::unmatched::{compatible_free_count, lemma_compatible_free_mono, lemma_compatible_free_same};

verus! {

/// `p` is the player of an entry that `row` marks compatible.
pub open spec fn compatible_player(entries: Seq<QueueEntry>, row: Seq<bool>, p: PlayerId) -> bool {
    exists|j: int| 0 <= j < entries.len() && entries[j].player_id == p && row[j]
}

/// `m` was formed around entry `i`: team A starts with its player, and
/// every other player is compatible with it.
pub open spec fn formed_around(m: ProposedMatch, entries: Seq<QueueEntry>, rows: Seq<Vec<bool>>, i: int) -> bool {
    &&& m.team_a@.len() > 0
    &&& m.team_a@[0] == entries[i].player_id
    &&& forall|t: int|
        1 <= t < (m.team_a@ + m.team_b@).len() ==> compatible_player(entries, rows[i]@, #[trigger] (m.team_a@ + m.team_b@)[t])
}

/// `m` was formed around some entry.
pub open spec fn formed_around_some(m: ProposedMatch, entries: Seq<QueueEntry>, rows: Seq<Vec<bool>>) -> bool {
    exists|i: int| 0 <= i < entries.len() && formed_around(m, entries, rows, i)
}

/// Both teams of `pr` hold `k` players.
pub open spec fn fills(pr: (Seq<PlayerId>, Seq<PlayerId>), k: nat) -> bool {
    pr.0.len() == k && pr.1.len() == k
}

/// The teams the scan of `entries` fills around `anchor`: starting from the
/// anchor alone on team A, each entry in turn whose player is not used, is
/// not the anchor and is marked in `row` joins (team A when the teams are
/// even, else team B) while the teams are not both full.
pub open spec fn scan_fill(
    entries: Seq<QueueEntry>,
    row: Seq<bool>,
    used: Seq<PlayerId>,
    anchor: PlayerId,
    k: nat,
) -> (Seq<PlayerId>, Seq<PlayerId>)
    decreases entries.len(),
{
    if entries.len() == 0 {
        (seq![anchor], Seq::empty())
    } else {
        let pr = scan_fill(entries.drop_last(), row, used, anchor, k);
        let x = entries.last().player_id;
        if !fills(pr, k) && !used.contains(x) && x != anchor && row[entries.len() - 1] {
            grow_pair(pr, x)
        } else {
            pr
        }
    }
}

/// Match `i` of `res` is the scan around the entry `js[i]`, whose player is
/// free of the matches before it.
pub open spec fn window_match(
    entries: Seq<QueueEntry>,
    rows: Seq<Vec<bool>>,
    k: nat,
    res: Seq<ProposedMatch>,
    js: Seq<int>,
    i: int,
) -> bool {
    let matched = players_of(res.subrange(0, i));
    &&& !matched.contains(entries[js[i]].player_id)
    &&& (res[i].team_a@, res[i].team_b@) == scan_fill(entries, rows[js[i]]@, matched, entries[js[i]].player_id, k)
}

/// The matches `res` with anchors at the entries `js`: each anchor's scan
/// fills both teams, and the scan around every other entry free of the
/// matches before it does not.
pub open spec fn window_trace(
    entries: Seq<QueueEntry>,
    rows: Seq<Vec<bool>>,
    k: nat,
    res: Seq<ProposedMatch>,
    js: Seq<int>,
) -> bool {
    &&& js.len() == res.len()
    &&& forall|i: int| 0 <= i < js.len() ==> 0 <= #[trigger] js[i] < entries.len()
    &&& forall|i: int, i2: int| 0 <= i < i2 < js.len() ==> #[trigger] js[i] < #[trigger] js[i2]
    &&& forall|i: int| 0 <= i < res.len() ==> #[trigger] window_match(entries, rows, k, res, js, i)
    &&& forall|i: int, j: int|
        0 <= j < entries.len() && #[trigger] in_gap(js, i, j) && !players_of(res.subrange(0, i)).contains(
            #[trigger] entries[j].player_id,
        ) ==> !fills(scan_fill(entries, rows[j]@, players_of(res.subrange(0, i)), entries[j].player_id, k), k)
}

/// The scan reads the used players only through their membership.
proof fn lemma_scan_congruent(
    entries: Seq<QueueEntry>,
    row: Seq<bool>,
    u1: Seq<PlayerId>,
    u2: Seq<PlayerId>,
    anchor: PlayerId,
    k: nat,
)
    requires
        forall|x: PlayerId| u1.contains(x) <==> u2.contains(x),
    ensures
        scan_fill(entries, row, u1, anchor, k) == scan_fill(entries, row, u2, anchor, k),
    decreases entries.len(),
{
    if entries.len() > 0 {
        lemma_scan_congruent(entries.drop_last(), row, u1, u2, anchor, k);
    }
}

/// Once both teams are full, the rest of the scan changes nothing.
proof fn lemma_scan_stays(
    entries: Seq<QueueEntry>,
    row: Seq<bool>,
    used: Seq<PlayerId>,
    anchor: PlayerId,
    k: nat,
    j: int,
    j2: int,
)
    requires
        0 <= j <= j2 <= entries.len(),
        fills(scan_fill(entries.subrange(0, j), row, used, anchor, k), k),
    ensures
        scan_fill(entries.subrange(0, j2), row, used, anchor, k) == scan_fill(entries.subrange(0, j), row, used, anchor, k),
    decreases j2 - j,
{
    if j2 > j {
        lemma_scan_stays(entries, row, used, anchor, k, j, j2 - 1);
        assert(entries.subrange(0, j2).drop_last() =~= entries.subrange(0, j2 - 1));
    }
}

/// For each entry whose player is not yet matched, in queue order: the
/// entry's player alone on team A, then each entry of the queue in order
/// whose player is free, is not the anchor and is compatible with it
/// (`compatible[i][j]`) joins team A when the teams are even and team B
/// otherwise, until both teams hold `team_size`; a full pair becomes
/// a match, otherwise the anchor stays free. Every match comes from the
/// queue with teams of `team_size`, is formed around one entry, and when no
/// player is queued twice no player is in two places. When it ends, no
/// unmatched entry has `2 * team_size - 1` compatible unmatched partners.
pub fn match_compatible(entries: &[QueueEntry], team_size: usize, compatible: &Vec<Vec<bool>>) -> (res: Vec<
    ProposedMatch,
>)
    requires
        compatible@.len() == entries@.len(),
        forall|i: int| 0 <= i < compatible@.len() ==> (#[trigger] compatible@[i])@.len() == entries@.len(),
        2 * team_size <= usize::MAX,
    ensures
        matches_from_queue(res@, entries@, team_size as nat),
        distinct_players(entries@) ==> all_distinct(players_of(res@)),
        forall|m: int| 0 <= m < res@.len() ==> formed_around_some(#[trigger] res@[m], entries@, compatible@),
        team_size > 0 ==> forall|i: int|
            0 <= i < entries@.len() && !players_of(res@).contains(#[trigger] entries@[i].player_id)
                ==> compatible_free_count(entries@, compatible@[i]@, players_of(res@), entries@[i].player_id)
                + 1 < 2 * team_size,
        team_size > 0 ==> exists|js: Seq<int>|
            #[trigger] window_trace(entries@, compatible@, team_size as nat, res@, js),
{
    let ghost d = distinct_players(entries@);
    let n = entries.len();
    let mut matches: Vec<ProposedMatch> = Vec::new();
    if team_size == 0 {
        return matches;
    }
    let mut used: Vec<PlayerId> = Vec::new();
    let mut q: usize = 0;
    let ghost k = team_size as nat;
    let ghost mut js: Seq<int> = Seq::empty();
    while q < n
        invariant
            q <= n,
            n == entries@.len(),
            team_size > 0,
            2 * team_size <= usize::MAX,
            d == distinct_players(entries@),
            compatible@.len() == entries@.len(),
            forall|i: int| 0 <= i < compatible@.len() ==> (#[trigger] compatible@[i])@.len() == entries@.len(),
            matches_from_queue(matches@, entries@, team_size as nat),
            d ==> all_distinct(players_of(matches@)),
            forall|m: int| 0 <= m < matches@.len() ==> formed_around_some(#[trigger] matches@[m], entries@, compatible@),
            forall|i: int| 0 <= i < players_of(matches@).len() ==> used@.contains(#[trigger] players_of(matches@)[i]),
            forall|x: PlayerId| used@.contains(x) ==> players_of(matches@).contains(x),
            forall|i: int|
                0 <= i < q ==> used@.contains(#[trigger] entries@[i].player_id) || compatible_free_count(
                    entries@,
                    compatible@[i]@,
                    used@,
                    entries@[i].player_id,
                ) + 1 < 2 * team_size,
            k == team_size,
            js.len() == matches@.len(),
            forall|i: int| 0 <= i < js.len() ==> 0 <= #[trigger] js[i] < q,
            forall|i: int, i2: int| 0 <= i < i2 < js.len() ==> #[trigger] js[i] < #[trigger] js[i2],
            forall|i: int| 0 <= i < matches@.len() ==> #[trigger] window_match(entries@, compatible@, k, matches@, js, i),
            forall|i: int, j: int|
                0 <= j < q && #[trigger] in_gap(js, i, j) && !players_of(matches@.subrange(0, i)).contains(
                    #[trigger] entries@[j].player_id,
                ) ==> !fills(
                    scan_fill(entries@, compatible@[j]@, players_of(matches@.subrange(0, i)), entries@[j].player_id, k),
                    k,
                ),
        decreases n - q,
    {
        let anchor = entries[q].player_id;
        proof {
            assert(matches@.subrange(0, matches@.len() as int) =~= matches@);
            assert forall|x: PlayerId| used@.contains(x) <==> players_of(matches@).contains(x) by {
                if players_of(matches@).contains(x) {
                    let i = choose|i: int| 0 <= i < players_of(matches@).len() && players_of(matches@)[i] == x;
                    assert(used@.contains(players_of(matches@)[i]));
                }
            }
        }
        if !contains_player(&used, anchor) {
            let ghost row = compatible@[q as int]@;
            let mut team_a: Vec<PlayerId> = Vec::new();
            team_a.push(anchor);
            let mut team_b: Vec<PlayerId> = Vec::new();
            proof {
                assert(team_a@ + team_b@ =~= seq![anchor]);
                assert(entries@.subrange(0, 0) =~= Seq::<QueueEntry>::empty());
            }
            let mut j: usize = 0;
            while j < n && !(team_a.len() == team_size && team_b.len() == team_size)
                invariant
                    j <= n,
                    n == entries@.len(),
                    team_size > 0,
                    2 * team_size <= usize::MAX,
                    d == distinct_players(entries@),
                    anchor == entries@[q as int].player_id,
                    !used@.contains(anchor),
                    row == compatible@[q as int]@,
                    q < n,
                    compatible@.len() == n,
                    compatible@[q as int]@.len() == n,
                    row.len() == n,
                    team_a@.len() >= 1 && team_a@[0] == anchor,
                    team_a@.len() == team_b@.len() || team_a@.len() == team_b@.len() + 1,
                    team_a@.len() <= team_size && team_b@.len() <= team_size,
                    team_a@.len() + team_b@.len() == 1 + compatible_free_count(
                        entries@.subrange(0, j as int),
                        row,
                        used@,
                        anchor,
                    ),
                    forall|t: int|
                        1 <= t < (team_a@ + team_b@).len() ==> exists|jj: int|
                            0 <= jj < j && entries@[jj].player_id == #[trigger] (team_a@ + team_b@)[t] && row[jj],
                    forall|t: int|
                        0 <= t < (team_a@ + team_b@).len() ==> queued(entries@, #[trigger] (team_a@ + team_b@)[t])
                            && !used@.contains((team_a@ + team_b@)[t]),
                    d ==> all_distinct(team_a@ + team_b@),
                    k == team_size,
                    (team_a@, team_b@) == scan_fill(entries@.subrange(0, j as int), row, used@, anchor, k),
                decreases n - j,
            {
                let other = entries[j].player_id;
                let ghost members = team_a@ + team_b@;
                proof {
                    assert(entries@.subrange(0, j as int + 1).drop_last() =~= entries@.subrange(0, j as int));
                    assert(entries@.subrange(0, j as int + 1).last() == entries@[j as int]);
                    assert(entries@.subrange(0, j as int + 1).len() - 1 == j);
                }
                if !contains_player(&used, other) && other != anchor && compatible[q][j] {
                    proof {
                        assert(queued(entries@, other)) by {
                            assert(entries@[j as int].player_id == other);
                        }
                        if d {
                            assert(!members.contains(other)) by {
                                if members.contains(other) {
                                    let t = choose|t: int| 0 <= t < members.len() && members[t] == other;
                                    if t == 0 {
                                        assert(members[0] == team_a@[0]);
                                    } else {
                                        let jj = choose|jj: int|
                                            0 <= jj < j && entries@[jj].player_id == #[trigger] members[t] && row[jj];
                                        assert(entries@[jj].player_id == entries@[j as int].player_id);
                                    }
                                }
                            }
                        }
                    }
                    let ghost al: int = if team_a.len() <= team_b.len() {
                        team_a@.len() as int
                    } else {
                        members.len() as int
                    };
                    let ghost old_a = team_a@;
                    let ghost to_a = team_a.len() <= team_b.len();
                    let ghost old_b = team_b@;
                    if team_a.len() <= team_b.len() {
                        team_a.push(other);
                    } else {
                        team_b.push(other);
                    }
                    proof {
                        assert((team_a@, team_b@) == grow_pair((old_a, old_b), other));
                        let nm = team_a@ + team_b@;
                        assert(nm.len() == members.len() + 1);
                        assert forall|t: int| 0 <= t < nm.len() implies #[trigger] nm[t] == (if t < al {
                            members[t]
                        } else if t == al {
                            other
                        } else {
                            members[t - 1]
                        }) by {
                            if to_a {
                                assert(team_a@ == old_a.push(other) && team_b@ == old_b);
                                if t < al {
                                    assert(nm[t] == old_a[t] && members[t] == old_a[t]);
                                } else if t > al {
                                    assert(nm[t] == old_b[t - al - 1]);
                                    assert(members[t - 1] == old_b[t - 1 - al]);
                                }
                            } else {
                                assert(team_a@ == old_a && team_b@ == old_b.push(other));
                                assert(nm =~= members.push(other));
                            }
                        }
                        assert forall|t: int| 1 <= t < nm.len() implies exists|jj: int|
                            0 <= jj < j + 1 && entries@[jj].player_id == #[trigger] nm[t] && row[jj] by {
                            if t == al {
                                assert(entries@[j as int].player_id == nm[t]);
                            } else {
                                let ot = if t < al { t } else { t - 1 };
                                assert(nm[t] == members[ot]);
                                assert(ot >= 1);
                                let jj = choose|jj: int| 0 <= jj < j && entries@[jj].player_id == #[trigger] members[ot] && row[jj];
                                assert(0 <= jj < j + 1 && entries@[jj].player_id == nm[t] && row[jj]);
                            }
                        }
                        assert forall|t: int| 0 <= t < nm.len() implies queued(entries@, #[trigger] nm[t]) && !used@.contains(nm[t]) by {
                            if t != al {
                                let ot = if t < al { t } else { t - 1 };
                                assert(nm[t] == members[ot]);
                            }
                        }
                        if d {
                            assert forall|x: int, y: int| 0 <= x < nm.len() && 0 <= y < nm.len() && x != y implies nm[x] != nm[y] by {
                                let ox = if x < al { x } else if x == al { -1 } else { x - 1 };
                                let oy = if y < al { y } else if y == al { -1 } else { y - 1 };
                                if ox >= 0 && oy >= 0 {
                                    assert(nm[x] == members[ox] && nm[y] == members[oy]);
                                } else if ox >= 0 {
                                    assert(nm[x] == members[ox]);
                                } else if oy >= 0 {
                                    assert(nm[y] == members[oy]);
                                }
                            }
                        }
                    }
                }
                j = j + 1;
            }
            proof {
                if team_a@.len() == team_size && team_b@.len() == team_size {
                    lemma_scan_stays(entries@, row, used@, anchor, k, j as int, n as int);
                } else {
                    assert(j == n);
                }
                assert(entries@.subrange(0, n as int) =~= entries@);
                lemma_scan_congruent(entries@, row, used@, players_of(matches@), anchor, k);
            }
            if team_a.len() == team_size && team_b.len() == team_size {
                let m = ProposedMatch { team_a, team_b };
                let ghost used_before = used@;
                let ghost before = matches@;
                let ghost old_js = js;
                used.push(anchor);
                push_all(&mut used, &m.team_a);
                push_all(&mut used, &m.team_b);
                proof {
                    assert(formed_around(m, entries@, compatible@, q as int)) by {
                        assert forall|t: int| 1 <= t < (m.team_a@ + m.team_b@).len() implies compatible_player(
                            entries@,
                            compatible@[q as int]@,
                            #[trigger] (m.team_a@ + m.team_b@)[t],
                        ) by {
                            let jj = choose|jj: int|
                                0 <= jj < j && entries@[jj].player_id == #[trigger] (m.team_a@ + m.team_b@)[t] && row[jj];
                        }
                    }
                }
                matches.push(m);
                proof {
                    assert(used@ =~= used_before + seq![anchor] + m.team_a@ + m.team_b@);
                    lemma_add_match(before, m, anchor, used_before, used@, entries@, team_size as nat, d);
                    lemma_used_grows(before, m, anchor, used_before, used@);
                    assert(used@[used_before.len() as int] == anchor);
                    assert forall|x: PlayerId| used_before.contains(x) implies used@.contains(x) by {
                        let k = choose|k: int| 0 <= k < used_before.len() && used_before[k] == x;
                        assert(used@[k] == x);
                    }
                    assert forall|mm: int| 0 <= mm < matches@.len() implies formed_around_some(
                        #[trigger] matches@[mm],
                        entries@,
                        compatible@,
                    ) by {
                        if mm < before.len() {
                            assert(matches@[mm] == before[mm]);
                            assert(formed_around_some(before[mm], entries@, compatible@));
                        } else {
                            assert(matches@[mm] == m);
                            assert(formed_around(matches@[mm], entries@, compatible@, q as int));
                        }
                    }
                    assert forall|i: int| 0 <= i < q + 1 implies used@.contains(#[trigger] entries@[i].player_id)
                        || compatible_free_count(entries@, compatible@[i]@, used@, entries@[i].player_id) + 1 < 2
                        * team_size by {
                        if i < q {
                            lemma_compatible_free_mono(entries@, compatible@[i]@, used_before, used@, entries@[i].player_id);
                        } else {
                            assert(used@.contains(anchor));
                        }
                    }
                }
                proof {
                    js = js.push(q as int);
                    let nb = before.len() as int;
                    assert(matches@.subrange(0, nb) =~= before);
                    assert forall|i: int| 0 <= i < matches@.len() implies #[trigger] window_match(
                        entries@,
                        compatible@,
                        k,
                        matches@,
                        js,
                        i,
                    ) by {
                        if i < nb {
                            assert(matches@.subrange(0, i) =~= before.subrange(0, i));
                            assert(window_match(entries@, compatible@, k, before, old_js, i));
                        } else {
                            assert(entries@[js[i]].player_id == anchor);
                        }
                    }
                    assert forall|i: int, jj: int|
                        0 <= jj < q + 1 && #[trigger] in_gap(js, i, jj) && !players_of(matches@.subrange(0, i)).contains(
                            #[trigger] entries@[jj].player_id,
                        ) implies !fills(
                        scan_fill(entries@, compatible@[jj]@, players_of(matches@.subrange(0, i)), entries@[jj].player_id, k),
                        k,
                    ) by {
                        if i <= nb {
                            assert(in_gap(old_js, i, jj));
                            assert(matches@.subrange(0, i) =~= before.subrange(0, i));
                        }
                    }
                }
            } else {
                proof {
                    assert(j == n);
                    assert(entries@.subrange(0, n as int) =~= entries@);
                    assert forall|i: int, jj: int|
                        0 <= jj < q + 1 && #[trigger] in_gap(js, i, jj) && !players_of(matches@.subrange(0, i)).contains(
                            #[trigger] entries@[jj].player_id,
                        ) implies !fills(
                        scan_fill(entries@, compatible@[jj]@, players_of(matches@.subrange(0, i)), entries@[jj].player_id, k),
                        k,
                    ) by {
                        if jj == q {
                            if i < js.len() {
                                assert(js[i] < q);
                            }
                            assert(i == js.len());
                        }
                    }
                }
            }
        } else {
            proof {
                    assert forall|i: int, jj: int|
                        0 <= jj < q + 1 && #[trigger] in_gap(js, i, jj) && !players_of(matches@.subrange(0, i)).contains(
                            #[trigger] entries@[jj].player_id,
                        ) implies !fills(
                        scan_fill(entries@, compatible@[jj]@, players_of(matches@.subrange(0, i)), entries@[jj].player_id, k),
                        k,
                    ) by {
                        if jj == q {
                            if i < js.len() {
                                assert(js[i] < q);
                            }
                            assert(i == js.len());
                        }
                    }
            }
        }
        q = q + 1;
    }
    proof {
        assert forall|x: PlayerId| used@.contains(x) <==> players_of(matches@).contains(x) by {
            if players_of(matches@).contains(x) {
                let i = choose|i: int| 0 <= i < players_of(matches@).len() && players_of(matches@)[i] == x;
                assert(used@.contains(players_of(matches@)[i]));
            }
        }
        assert forall|i: int|
            0 <= i < entries@.len() && !players_of(matches@).contains(#[trigger] entries@[i].player_id) implies
            compatible_free_count(entries@, compatible@[i]@, players_of(matches@), entries@[i].player_id) + 1 < 2
                * team_size by {
            lemma_compatible_free_same(entries@, compatible@[i]@, used@, players_of(matches@), entries@[i].player_id);
        }
        assert(window_trace(entries@, compatible@, k, matches@, js));
    }
    matches
}

} // verus!
