//! Counting the queue entries still free to be matched.
use vstd::prelude::*;
use crate::ids::PlayerId;
use crate::queue::{distinct_players, QueueEntry};

verus! {

/// The number of entries of `s` whose player is not in `used`.
pub open spec fn unmatched_count(s: Seq<QueueEntry>, used: Seq<PlayerId>) -> nat
    decreases s.len(),
{
    if s.len() == 0 {
        0
    } else {
        unmatched_count(s.drop_last(), used) + if !used.contains(s.last().player_id) {
            1nat
        } else {
            0nat
        }
    }
}

/// The number of entries of `s` whose player is neither in `used` nor `x`.
pub open spec fn free_count(s: Seq<QueueEntry>, used: Seq<PlayerId>, x: PlayerId) -> nat
    decreases s.len(),
{
    if s.len() == 0 {
        0
    } else {
        free_count(s.drop_last(), used, x) + if !used.contains(s.last().player_id) && s.last().player_id
            != x {
            1nat
        } else {
            0nat
        }
    }
}

proof fn lemma_distinct_prefix(s: Seq<QueueEntry>)
    requires
        distinct_players(s),
        s.len() > 0,
    ensures
        distinct_players(s.drop_last()),
        forall|j: int| 0 <= j < s.len() - 1 ==> (#[trigger] s.drop_last()[j]).player_id != s.last().player_id,
{
    assert forall|j: int| 0 <= j < s.len() - 1 implies (#[trigger] s.drop_last()[j]).player_id != s.last().player_id by {
        assert(s.drop_last()[j] == s[j]);
    }
}

/// Fewer players in `used` leave at least as many entries unmatched.
pub proof fn lemma_unmatched_mono(s: Seq<QueueEntry>, u1: Seq<PlayerId>, u2: Seq<PlayerId>)
    requires
        forall|p: PlayerId| u1.contains(p) ==> u2.contains(p),
    ensures
        unmatched_count(s, u2) <= unmatched_count(s, u1),
    decreases s.len(),
{
    if s.len() > 0 {
        lemma_unmatched_mono(s.drop_last(), u1, u2);
    }
}

/// When every entry's player is in `used`, no entry is unmatched.
pub proof fn lemma_unmatched_none(s: Seq<QueueEntry>, used: Seq<PlayerId>)
    requires
        forall|j: int| 0 <= j < s.len() ==> used.contains(#[trigger] s[j].player_id),
    ensures
        unmatched_count(s, used) == 0,
    decreases s.len(),
{
    if s.len() > 0 {
        assert forall|j: int| 0 <= j < s.drop_last().len() implies used.contains(#[trigger] s.drop_last()[j].player_id) by {
            assert(s.drop_last()[j] == s[j]);
        }
        lemma_unmatched_none(s.drop_last(), used);
        assert(used.contains(s[s.len() - 1].player_id));
    }
}

proof fn lemma_free_absent(s: Seq<QueueEntry>, used: Seq<PlayerId>, x: PlayerId)
    requires
        forall|j: int| 0 <= j < s.len() ==> (#[trigger] s[j]).player_id != x,
    ensures
        free_count(s, used, x) == unmatched_count(s, used),
    decreases s.len(),
{
    if s.len() > 0 {
        assert forall|j: int| 0 <= j < s.drop_last().len() implies (#[trigger] s.drop_last()[j]).player_id != x by {
            assert(s.drop_last()[j] == s[j]);
        }
        lemma_free_absent(s.drop_last(), used, x);
        assert(s[s.len() - 1].player_id != x);
    }
}

/// In a queue where no player has two entries, setting one player aside
/// sets aside at most one entry.
pub proof fn lemma_unmatched_split(s: Seq<QueueEntry>, used: Seq<PlayerId>, x: PlayerId)
    requires
        distinct_players(s),
    ensures
        unmatched_count(s, used) <= free_count(s, used, x) + 1,
    decreases s.len(),
{
    if s.len() > 0 {
        lemma_distinct_prefix(s);
        if s.last().player_id == x {
            lemma_free_absent(s.drop_last(), used, x);
        } else {
            lemma_unmatched_split(s.drop_last(), used, x);
        }
    }
}

proof fn lemma_free_absent_push(s: Seq<QueueEntry>, used: Seq<PlayerId>, x: PlayerId, y: PlayerId)
    requires
        forall|j: int| 0 <= j < s.len() ==> (#[trigger] s[j]).player_id != y,
    ensures
        free_count(s, used.push(y), x) == free_count(s, used, x),
    decreases s.len(),
{
    if s.len() > 0 {
        assert forall|j: int| 0 <= j < s.drop_last().len() implies (#[trigger] s.drop_last()[j]).player_id != y by {
            assert(s.drop_last()[j] == s[j]);
        }
        lemma_free_absent_push(s.drop_last(), used, x, y);
        let p = s.last().player_id;
        assert(p != y);
        assert(used.push(y).contains(p) == used.contains(p)) by {
            if used.push(y).contains(p) {
                let k = choose|k: int| 0 <= k < used.push(y).len() && used.push(y)[k] == p;
                assert(k < used.len());
                assert(used[k] == p);
            }
            if used.contains(p) {
                let k = choose|k: int| 0 <= k < used.len() && used[k] == p;
                assert(used.push(y)[k] == p);
            }
        }
    }
}

proof fn lemma_free_push(s: Seq<QueueEntry>, used: Seq<PlayerId>, x: PlayerId, y: PlayerId)
    requires
        distinct_players(s),
    ensures
        free_count(s, used.push(y), x) + 1 >= free_count(s, used, x),
    decreases s.len(),
{
    if s.len() > 0 {
        lemma_distinct_prefix(s);
        let p = s.last().player_id;
        if p == y {
            lemma_free_absent_push(s.drop_last(), used, x, y);
        } else {
            lemma_free_push(s.drop_last(), used, x, y);
            assert(used.push(y).contains(p) == used.contains(p)) by {
                if used.push(y).contains(p) {
                    let k = choose|k: int| 0 <= k < used.push(y).len() && used.push(y)[k] == p;
                    assert(k < used.len());
                    assert(used[k] == p);
                }
                if used.contains(p) {
                    let k = choose|k: int| 0 <= k < used.len() && used[k] == p;
                    assert(used.push(y)[k] == p);
                }
            }
        }
    }
}

/// In a queue where no player has two entries, each further used player
/// takes at most one free entry.
pub proof fn lemma_free_extra(s: Seq<QueueEntry>, used: Seq<PlayerId>, extra: Seq<PlayerId>, x: PlayerId)
    requires
        distinct_players(s),
    ensures
        free_count(s, used + extra, x) + extra.len() >= free_count(s, used, x),
    decreases extra.len(),
{
    if extra.len() == 0 {
        assert(used + extra =~= used);
    } else {
        lemma_free_extra(s, used, extra.drop_last(), x);
        lemma_free_push(s, used + extra.drop_last(), x, extra.last());
        assert((used + extra.drop_last()).push(extra.last()) =~= used + extra);
    }
}

/// A free entry exists when the count of them is positive.
pub proof fn lemma_free_witness(s: Seq<QueueEntry>, used: Seq<PlayerId>, x: PlayerId)
    requires
        free_count(s, used, x) > 0,
    ensures
        exists|j: int| 0 <= j < s.len() && !used.contains(#[trigger] s[j].player_id) && s[j].player_id != x,
    decreases s.len(),
{
    let p = s.last().player_id;
    if !used.contains(p) && p != x {
        assert(s[s.len() - 1].player_id == p);
    } else {
        lemma_free_witness(s.drop_last(), used, x);
        let j = choose|j: int|
            0 <= j < s.drop_last().len() && !used.contains(#[trigger] s.drop_last()[j].player_id) && s.drop_last()[j].player_id != x;
        assert(s[j] == s.drop_last()[j]);
    }
}

/// Two lists of used players with the same members leave the same entries
/// unmatched.
pub proof fn lemma_unmatched_same(s: Seq<QueueEntry>, u1: Seq<PlayerId>, u2: Seq<PlayerId>)
    requires
        forall|p: PlayerId| u1.contains(p) <==> u2.contains(p),
    ensures
        unmatched_count(s, u1) == unmatched_count(s, u2),
{
    lemma_unmatched_mono(s, u1, u2);
    lemma_unmatched_mono(s, u2, u1);
}

/// The number of entries `j` of `s` with `row[j]` set whose player is
/// neither in `used` nor `x`.
pub open spec fn compatible_free_count(s: Seq<QueueEntry>, row: Seq<bool>, used: Seq<PlayerId>, x: PlayerId) -> nat
    decreases s.len(),
{
    if s.len() == 0 {
        0
    } else {
        compatible_free_count(s.drop_last(), row, used, x) + if row[s.len() - 1] && !used.contains(
            s.last().player_id,
        ) && s.last().player_id != x {
            1nat
        } else {
            0nat
        }
    }
}

/// More players in `used` leave no more compatible entries free.
pub proof fn lemma_compatible_free_mono(
    s: Seq<QueueEntry>,
    row: Seq<bool>,
    u1: Seq<PlayerId>,
    u2: Seq<PlayerId>,
    x: PlayerId,
)
    requires
        forall|p: PlayerId| u1.contains(p) ==> u2.contains(p),
    ensures
        compatible_free_count(s, row, u2, x) <= compatible_free_count(s, row, u1, x),
    decreases s.len(),
{
    if s.len() > 0 {
        lemma_compatible_free_mono(s.drop_last(), row, u1, u2, x);
    }
}

/// Two lists of used players with the same members leave the same
/// compatible entries free.
pub proof fn lemma_compatible_free_same(
    s: Seq<QueueEntry>,
    row: Seq<bool>,
    u1: Seq<PlayerId>,
    u2: Seq<PlayerId>,
    x: PlayerId,
)
    requires
        forall|p: PlayerId| u1.contains(p) <==> u2.contains(p),
    ensures
        compatible_free_count(s, row, u1, x) == compatible_free_count(s, row, u2, x),
{
    lemma_compatible_free_mono(s, row, u1, u2, x);
    lemma_compatible_free_mono(s, row, u2, u1, x);
}


/// In a queue where no player has two entries, when every entry's player is
/// in `used` or in `m`, at most `m.len()` entries are unmatched.
pub proof fn lemma_unmatched_within(s: Seq<QueueEntry>, used: Seq<PlayerId>, m: Seq<PlayerId>)
    requires
        distinct_players(s),
        forall|j: int| 0 <= j < s.len() ==> used.contains(#[trigger] s[j].player_id) || m.contains(s[j].player_id),
    ensures
        unmatched_count(s, used) <= m.len(),
    decreases s.len(),
{
    if s.len() > 0 {
        lemma_distinct_prefix(s);
        let rest = s.drop_last();
        let p = s.last().player_id;
        if used.contains(p) {
            assert forall|j: int| 0 <= j < rest.len() implies used.contains(#[trigger] rest[j].player_id) || m.contains(
                rest[j].player_id,
            ) by {
                assert(rest[j] == s[j]);
            }
            lemma_unmatched_within(rest, used, m);
        } else {
            assert(s[s.len() - 1].player_id == p);
            assert(m.contains(p));
            let i = choose|i: int| 0 <= i < m.len() && m[i] == p;
            let m2 = m.remove(i);
            assert forall|j: int| 0 <= j < rest.len() implies used.contains(#[trigger] rest[j].player_id) || m2.contains(
                rest[j].player_id,
            ) by {
                assert(rest[j] == s[j]);
                let x = rest[j].player_id;
                assert(x != p);
                if !used.contains(x) {
                    assert(m.contains(x));
                    let k = choose|k: int| 0 <= k < m.len() && m[k] == x;
                    assert(k != i);
                    if k < i {
                        assert(m2[k] == x);
                    } else {
                        assert(m2[k - 1] == x);
                    }
                }
            }
            lemma_unmatched_within(rest, used, m2);
        }
    }
}

} // verus!
