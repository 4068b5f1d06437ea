//! A leaderboard kept in descending rating order.
//!
//! A rating is held as an order key: an integer that orders entries as their
//! ratings do.
use vstd::prelude::*;
use crate::ids::PlayerId;
use crate::order::is_stable_order;
use crate::rank::Rank;

verus! {

/// One player's standing.
#[derive(Debug, Clone)]
pub struct LeaderboardEntry {
    pub player_id: PlayerId,
    pub rating: u64,
    pub rank: Rank,
    pub games_played: u64,
}

/// The ratings of `s`, in order.
pub open spec fn ratings_of(s: Seq<LeaderboardEntry>) -> Seq<u64> {
    Seq::new(s.len(), |i: int| s[i].rating)
}

/// Ratings never rise along `s`.
pub open spec fn sorted_desc(s: Seq<LeaderboardEntry>) -> bool {
    forall|i: int, j: int| 0 <= i < j < s.len() ==> s[i].rating >= s[j].rating
}

/// The first position of `pid` in `s`, or -1.
pub open spec fn first_of(s: Seq<LeaderboardEntry>, pid: PlayerId) -> int
    decreases s.len(),
{
    if s.len() == 0 {
        -1
    } else if first_of(s.drop_last(), pid) >= 0 {
        first_of(s.drop_last(), pid)
    } else if s.last().player_id == pid {
        s.len() - 1
    } else {
        -1
    }
}

/// `s` with the first entry of `e`'s player replaced by `e`, or with `e`
/// appended when the player has none.
pub open spec fn replaced(s: Seq<LeaderboardEntry>, e: LeaderboardEntry) -> Seq<LeaderboardEntry> {
    if first_of(s, e.player_id) >= 0 {
        s.update(first_of(s, e.player_id), e)
    } else {
        s.push(e)
    }
}

/// `after` is `before` stably sorted by descending rating: ties keep their
/// order.
pub open spec fn stably_sorted(before: Seq<LeaderboardEntry>, after: Seq<LeaderboardEntry>) -> bool {
    exists|perm: Seq<usize>|
        is_stable_order(ratings_of(before), true, perm) && after.len() == before.len() && forall|i: int|
            0 <= i < after.len() ==> after[i] == before[#[trigger] perm[i] as int]
}

proof fn lemma_first_of(s: Seq<LeaderboardEntry>, pid: PlayerId)
    ensures
        -1 <= first_of(s, pid) < s.len(),
        first_of(s, pid) >= 0 ==> s[first_of(s, pid)].player_id == pid,
        forall|j: int| 0 <= j < s.len() && (first_of(s, pid) < 0 || j < first_of(s, pid)) ==> #[trigger] s[j].player_id != pid,
    decreases s.len(),
{
    if s.len() > 0 {
        lemma_first_of(s.drop_last(), pid);
        assert forall|j: int| 0 <= j < s.len() - 1 implies s.drop_last()[j] == #[trigger] s[j] by {}
    }
}

/// No player has two entries in `s`.
pub open spec fn distinct_ids(s: Seq<LeaderboardEntry>) -> bool {
    forall|i: int, j: int| 0 <= i < s.len() && 0 <= j < s.len() && i != j ==> s[i].player_id != s[j].player_id
}

proof fn lemma_replaced_distinct(s: Seq<LeaderboardEntry>, e: LeaderboardEntry)
    requires
        distinct_ids(s),
    ensures
        distinct_ids(replaced(s, e)),
        first_of(s, e.player_id) >= 0 ==> replaced(s, e)[first_of(s, e.player_id)] == e,
        first_of(s, e.player_id) < 0 ==> replaced(s, e)[s.len() as int] == e,
{
    lemma_first_of(s, e.player_id);
    let m = replaced(s, e);
    let p = first_of(s, e.player_id);
    assert forall|i: int, j: int| 0 <= i < m.len() && 0 <= j < m.len() && i != j implies m[i].player_id != m[j].player_id by {
        if p >= 0 {
            if i != p && j != p {
                assert(m[i] == s[i] && m[j] == s[j]);
            } else if i == p {
                assert(m[j] == s[j]);
                assert(s[p].player_id == e.player_id);
            } else {
                assert(m[i] == s[i]);
                assert(s[p].player_id == e.player_id);
            }
        } else {
            if i < s.len() && j < s.len() {
                assert(m[i] == s[i] && m[j] == s[j]);
            } else if i < s.len() {
                assert(m[i] == s[i]);
            } else {
                assert(m[j] == s[j]);
            }
        }
    }
}

proof fn lemma_sorting_keeps(before: Seq<LeaderboardEntry>, after: Seq<LeaderboardEntry>, p: int)
    requires
        stably_sorted(before, after),
        distinct_ids(before),
        0 <= p < before.len(),
    ensures
        distinct_ids(after),
        exists|k: int| 0 <= k < after.len() && after[k] == before[p],
{
    let perm = choose|perm: Seq<usize>|
        is_stable_order(ratings_of(before), true, perm) && after.len() == before.len() && forall|i: int|
            0 <= i < after.len() ==> after[i] == before[#[trigger] perm[i] as int];
    assert forall|i: int, j: int| 0 <= i < after.len() && 0 <= j < after.len() && i != j implies after[i].player_id
        != after[j].player_id by {
        assert(after[i] == before[perm[i] as int] && after[j] == before[perm[j] as int]);
        if i < j {
            assert(perm[i] != perm[j]);
        } else {
            assert(perm[j] != perm[i]);
        }
    }
    crate::order::lemma_distinct_below(perm, before.len());
    crate::order::lemma_distinct_below(perm, (usize::MAX + 1) as nat);
    assert(perm.contains(p as usize));
    let k = choose|k: int| 0 <= k < perm.len() && perm[k] == p as usize;
    assert(after[k] == before[perm[k] as int]);
}

proof fn lemma_first_is(s: Seq<LeaderboardEntry>, pid: PlayerId, k: int)
    requires
        distinct_ids(s),
        0 <= k < s.len(),
        s[k].player_id == pid,
    ensures
        first_of(s, pid) == k,
{
    lemma_first_of(s, pid);
}

/// What an update writes, a lookup reads back: after `update` with entry
/// `e` (on a leaderboard where no player has two entries), no player has two
/// entries, the player's entry is found, and it is `e`; the leaderboard
/// grows by one exactly when the player had no entry.
pub proof fn lemma_update_then_lookup(s: Seq<LeaderboardEntry>, e: LeaderboardEntry, after: Seq<LeaderboardEntry>)
    requires
        distinct_ids(s),
        stably_sorted(replaced(s, e), after),
    ensures
        distinct_ids(after),
        first_of(after, e.player_id) >= 0,
        after[first_of(after, e.player_id)] == e,
        after.len() == if first_of(s, e.player_id) >= 0 {
            s.len() as int
        } else {
            s.len() + 1int
        },
{
    lemma_replaced_distinct(s, e);
    lemma_first_of(s, e.player_id);
    let p = if first_of(s, e.player_id) >= 0 {
        first_of(s, e.player_id)
    } else {
        s.len() as int
    };
    lemma_sorting_keeps(replaced(s, e), after, p);
    let k = choose|k: int| 0 <= k < after.len() && after[k] == replaced(s, e)[p];
    lemma_first_is(after, e.player_id, k);
}

/// `s` has an entry for `pid`.
pub open spec fn has_player(s: Seq<LeaderboardEntry>, pid: PlayerId) -> bool {
    exists|i: int| 0 <= i < s.len() && #[trigger] s[i].player_id == pid
}

/// An update's effect on the entries: with `s` the entries before (no
/// player twice) and `after` the entries that `update` leaves for `e`, the
/// entries stay in descending rating order with no player twice, the
/// player's one entry is `e`, every other player's entries are those it had,
/// and the leaderboard grows by one exactly when the player had no entry.
pub proof fn lemma_update_law(s: Seq<LeaderboardEntry>, e: LeaderboardEntry, after: Seq<LeaderboardEntry>)
    requires
        distinct_ids(s),
        stably_sorted(replaced(s, e), after),
    ensures
        sorted_desc(after),
        distinct_ids(after),
        after.contains(e),
        forall|i: int| 0 <= i < after.len() && #[trigger] after[i].player_id == e.player_id ==> after[i] == e,
        forall|x: LeaderboardEntry| x.player_id != e.player_id ==> (after.contains(x) <==> s.contains(x)),
        after.len() == if has_player(s, e.player_id) {
            s.len() as int
        } else {
            s.len() + 1int
        },
{
    lemma_update_then_lookup(s, e, after);
    lemma_first_of(s, e.player_id);
    lemma_first_of(after, e.player_id);
    lemma_replaced_distinct(s, e);
    let m = replaced(s, e);
    let pos = first_of(s, e.player_id);
    let perm = choose|perm: Seq<usize>|
        is_stable_order(ratings_of(m), true, perm) && after.len() == m.len() && forall|i: int|
            0 <= i < after.len() ==> after[i] == m[#[trigger] perm[i] as int];
    if has_player(s, e.player_id) {
        let i = choose|i: int| 0 <= i < s.len() && #[trigger] s[i].player_id == e.player_id;
        assert(pos >= 0);
    } else {
        if pos >= 0 {
            assert(s[pos].player_id == e.player_id);
        }
    }
    assert(after[first_of(after, e.player_id)] == e);
    assert forall|i: int, j: int| 0 <= i < j < after.len() implies after[i].rating >= after[j].rating by {
        assert(after[i] == m[perm[i] as int] && after[j] == m[perm[j] as int]);
        assert(crate::order::before(ratings_of(m), true, perm[i] as int, perm[j] as int));
    }
    assert forall|i: int| 0 <= i < after.len() && #[trigger] after[i].player_id == e.player_id implies after[i] == e by {
        let f = first_of(after, e.player_id);
        if i != f {
            assert(after[f].player_id == e.player_id);
        }
    }
    crate::order::lemma_distinct_below(perm, m.len());
    crate::order::lemma_distinct_below(perm, (usize::MAX + 1) as nat);
    let ep = if pos >= 0 { pos } else { s.len() as int };
    assert(m[ep] == e);
    assert forall|j: int| 0 <= j < m.len() && j != ep implies #[trigger] m[j] == s[j] by {}
    assert forall|x: LeaderboardEntry| x.player_id != e.player_id implies (after.contains(x) <==> s.contains(x)) by {
        if after.contains(x) {
            let i = choose|i: int| 0 <= i < after.len() && after[i] == x;
            let j = perm[i] as int;
            assert(after[i] == m[j]);
            assert(j != ep);
            assert(m[j] == s[j]);
        }
        if s.contains(x) {
            let j = choose|j: int| 0 <= j < s.len() && s[j] == x;
            assert(j != ep) by {
                if j == ep {
                    assert(s[pos].player_id == e.player_id);
                }
            }
            assert(m[j] == s[j]);
            assert(perm.contains(j as usize));
            let i = choose|i: int| 0 <= i < perm.len() && perm[i] == j as usize;
            assert(after[i] == m[j]);
        }
    }
    let f = first_of(after, e.player_id);
    assert(after[f] == e);
}

/// Players by rating, highest first.
pub struct Leaderboard {
    entries: Vec<LeaderboardEntry>,
}

impl View for Leaderboard {
    type V = Seq<LeaderboardEntry>;

    closed spec fn view(&self) -> Seq<LeaderboardEntry> {
        self.entries@
    }
}

/// Inserting the entry `m[p]` into `m` without it, after every entry that
/// outranks it (a higher rating, or the same rating and an earlier place in
/// `m`), stably sorts `m` when `m` without it is sorted.
proof fn lemma_insert_sorts(m: Seq<LeaderboardEntry>, p: int, q: int)
    requires
        0 <= p < m.len(),
        m.len() <= usize::MAX,
        sorted_desc(m.remove(p)),
        0 <= q <= m.len() - 1,
        forall|k: int| 0 <= k < q ==> (#[trigger] m.remove(p)[k]).rating > m[p].rating || (m.remove(p)[k].rating
            == m[p].rating && k < p),
        q < m.len() - 1 ==> !(m.remove(p)[q].rating > m[p].rating || (m.remove(p)[q].rating == m[p].rating && q < p)),
    ensures
        stably_sorted(m, m.remove(p).insert(q, m[p])),
        sorted_desc(m.remove(p).insert(q, m[p])),
{
    let n = m.len() as int;
    let others = m.remove(p);
    let res = others.insert(q, m[p]);
    let keys = ratings_of(m);
    let r = m[p].rating;
    assert forall|k: int| 0 <= k < n - 1 implies #[trigger] others[k] == m[if k < p { k } else { k + 1 }] by {}
    // every entry from `q` on is outranked by m[p]
    assert forall|k: int| q <= k < n - 1 implies !((#[trigger] others[k]).rating > r || (others[k].rating == r && k < p)) by {
        assert(others[q].rating >= others[k].rating);
    }
    let perm = Seq::new(n as nat, |k: int| (if k < q {
        if k < p { k } else { k + 1 }
    } else if k == q {
        p
    } else {
        if k - 1 < p { k - 1 } else { k }
    }) as usize);
    assert forall|k: int| 0 <= k < n implies #[trigger] res[k] == m[perm[k] as int] && perm[k] < n by {
        if k < q {
            assert(res[k] == others[k]);
        } else if k == q {
        } else {
            assert(res[k] == others[k - 1]);
        }
    }
    assert forall|i: int, j: int| 0 <= i < j < n implies perm[i] != perm[j] by {}
    assert forall|i: int, j: int| 0 <= i < j < n implies crate::order::before(keys, true, #[trigger] perm[i] as int, #[trigger] perm[j] as int) by {
        assert(keys[perm[i] as int] == m[perm[i] as int].rating);
        assert(keys[perm[j] as int] == m[perm[j] as int].rating);
        if i != q && j != q {
            let oi = if i < q { i } else { i - 1 };
            let oj = if j < q { j } else { j - 1 };
            assert(oi < oj);
            assert(others[oi] == m[perm[i] as int]);
            assert(others[oj] == m[perm[j] as int]);
            assert(others[oi].rating >= others[oj].rating);
        } else if j == q {
            assert(others[i] == m[perm[i] as int]);
        } else {
            assert(others[j - 1] == m[perm[j] as int]);
        }
    }
    assert(is_stable_order(keys, true, perm));
    assert forall|i: int| 0 <= i < res.len() implies res[i] == m[#[trigger] perm[i] as int] by {}
    assert forall|i: int, j: int| 0 <= i < j < res.len() implies res[i].rating >= res[j].rating by {
        assert(crate::order::before(keys, true, perm[i] as int, perm[j] as int));
        assert(res[i] == m[perm[i] as int] && res[j] == m[perm[j] as int]);
    }
}

impl Leaderboard {
    #[verifier::type_invariant]
    spec fn sorted(self) -> bool {
        sorted_desc(self.entries@) && distinct_ids(self.entries@)
    }

    /// An empty leaderboard.
    pub fn new() -> (lb: Leaderboard)
        ensures
            lb@ == Seq::<LeaderboardEntry>::empty(),
    {
        Leaderboard { entries: Vec::new() }
    }

    /// Records the player's rating, rank and game count: the player's first
    /// entry is replaced, or a new entry is added, and the entries are then
    /// stably sorted by descending rating.
    pub fn update(&mut self, player_id: PlayerId, rating: u64, rank: Rank, games_played: u64)
        requires
            old(self)@.len() < usize::MAX,
        ensures
            stably_sorted(
                replaced(old(self)@, LeaderboardEntry { player_id, rating, rank, games_played }),
                final(self)@,
            ),
            sorted_desc(final(self)@),
            distinct_ids(final(self)@),
    {
        proof {
            use_type_invariant(&*self);
        }
        let ghost e = LeaderboardEntry { player_id, rating, rank, games_played };
        let ghost old_entries = self.entries@;
        let mut entries: Vec<LeaderboardEntry> = Vec::new();
        std::mem::swap(&mut entries, &mut self.entries);
        proof {
            lemma_first_of(old_entries, player_id);
        }
        let mut p: usize = 0;
        while p < entries.len() && entries[p].player_id != player_id
            invariant
                entries@ == old_entries,
                p <= entries@.len(),
                forall|j: int| 0 <= j < p ==> (#[trigger] entries@[j]).player_id != player_id,
            decreases entries@.len() - p,
        {
            p = p + 1;
        }
        let ghost m = replaced(old_entries, e);
        let found = p < entries.len();
        proof {
            if found {
                assert(first_of(old_entries, player_id) == p);
                assert(m == old_entries.update(p as int, e));
                assert(m.remove(p as int) =~= old_entries.remove(p as int));
            } else {
                assert(first_of(old_entries, player_id) < 0);
                assert(m == old_entries.push(e));
                assert(m.remove(p as int) =~= old_entries);
            }
            assert(m[p as int] == e);
        }
        if found {
            let _previous = entries.remove(p);
        }
        proof {
            assert(entries@ =~= m.remove(p as int));
            assert forall|i: int, j: int| 0 <= i < j < entries@.len() implies entries@[i].rating >= entries@[j].rating by {
                if found {
                    let oi = if i < p { i } else { i + 1 };
                    let oj = if j < p { j } else { j + 1 };
                    assert(entries@[i] == old_entries[oi] && entries@[j] == old_entries[oj]);
                }
            }
        }
        let mut q: usize = 0;
        while q < entries.len() && (entries[q].rating > rating || (entries[q].rating == rating && q < p))
            invariant
                entries@ == m.remove(p as int),
                q <= entries@.len(),
                forall|k: int| 0 <= k < q ==> (#[trigger] entries@[k]).rating > rating || (entries@[k].rating == rating
                    && k < p),
            decreases entries@.len() - q,
        {
            q = q + 1;
        }
        let entry = LeaderboardEntry { player_id, rating, rank, games_played };
        entries.insert(q, entry);
        proof {
            lemma_insert_sorts(m, p as int, q as int);
            lemma_update_then_lookup(old_entries, e, entries@);
        }
        self.entries = entries;
        proof {
            use_type_invariant(&*self);
        }
    }

    /// The position of the player's first entry, if any.
    pub fn rank_of(&self, player_id: PlayerId) -> (res: Option<usize>)
        ensures
            res == (if first_of(self@, player_id) >= 0 {
                Some(first_of(self@, player_id) as usize)
            } else {
                None
            }),
    {
        proof {
            lemma_first_of(self@, player_id);
        }
        let mut i: usize = 0;
        while i < self.entries.len()
            invariant
                i <= self.entries@.len(),
                forall|j: int| 0 <= j < i ==> (#[trigger] self.entries@[j]).player_id != player_id,
                -1 <= first_of(self@, player_id) < self@.len(),
                first_of(self@, player_id) >= 0 ==> self@[first_of(self@, player_id)].player_id == player_id,
                forall|j: int| 0 <= j < self@.len() && (first_of(self@, player_id) < 0 || j < first_of(self@, player_id))
                    ==> #[trigger] self@[j].player_id != player_id,
            decreases self.entries@.len() - i,
        {
            if self.entries[i].player_id == player_id {
                return Some(i);
            }
            i = i + 1;
        }
        None
    }

    /// The first `n` entries, or all of them when there are fewer.
    pub fn top_n(&self, n: usize) -> (res: &[LeaderboardEntry])
        ensures
            res@ == self@.subrange(0, if n < self@.len() { n as int } else { self@.len() as int }),
    {
        let k = if n < self.entries.len() {
            n
        } else {
            self.entries.len()
        };
        vstd::slice::slice_subrange(self.entries.as_slice(), 0, k)
    }

    /// Every entry, highest rating first.
    pub fn entries(&self) -> (res: &[LeaderboardEntry])
        ensures
            res@ == self@,
            sorted_desc(res@),
            distinct_ids(res@),
    {
        proof {
            use_type_invariant(self);
        }
        self.entries.as_slice()
    }

    /// The number of entries.
    pub fn len(&self) -> (n: usize)
        ensures
            n == self@.len(),
    {
        self.entries.len()
    }

    /// Whether there is no entry.
    pub fn is_empty(&self) -> (b: bool)
        ensures
            b == (self@.len() == 0),
    {
        self.entries.len() == 0
    }
}

impl Default for Leaderboard {
    /// An empty leaderboard.
    fn default() -> (lb: Leaderboard)
        ensures
            lb@ == Seq::<LeaderboardEntry>::empty(),
    {
        Leaderboard::new()
    }
}

} // verus!
