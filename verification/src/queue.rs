//! The matchmaking queue: entries in join order.
use vstd::prelude::*;
use crate::ids::{PlayerId, Region, SimTime};

verus! {

/// One player waiting in the queue, with what matchmaking reads of them.
#[derive(Debug, Clone)]
pub struct QueueEntry {
    pub player_id: PlayerId,
    pub joined_at: SimTime,
    pub region: Region,
    pub party_id: Option<u64>,
    pub game_mode: String,
    pub role: Option<String>,
}

/// `i` is the first position of `s` that holds `pid`.
pub open spec fn is_first(s: Seq<QueueEntry>, pid: PlayerId, i: int) -> bool {
    &&& 0 <= i < s.len()
    &&& s[i].player_id == pid
    &&& forall|j: int| 0 <= j < i ==> s[j].player_id != pid
}

/// The first position of `s` that holds `pid`, or `-1` when none does.
pub open spec fn position(s: Seq<QueueEntry>, pid: PlayerId) -> int {
    if exists|i: int| is_first(s, pid, i) {
        choose|i: int| is_first(s, pid, i)
    } else {
        -1
    }
}

/// `s` with the first entry of `pid` taken out (unchanged when there is none).
pub open spec fn without(s: Seq<QueueEntry>, pid: PlayerId) -> Seq<QueueEntry> {
    if position(s, pid) >= 0 {
        s.remove(position(s, pid))
    } else {
        s
    }
}

/// What is left of `s` after taking out the first entry of each id of
/// `ids`, one id after the other.
pub open spec fn without_all(s: Seq<QueueEntry>, ids: Seq<PlayerId>) -> Seq<QueueEntry>
    decreases ids.len(),
{
    if ids.len() == 0 {
        s
    } else {
        without(without_all(s, ids.drop_last()), ids.last())
    }
}

/// The entries taken out of `s` by `without_all(s, ids)`, in the order of
/// `ids`.
pub open spec fn taken_by_all(s: Seq<QueueEntry>, ids: Seq<PlayerId>) -> Seq<QueueEntry>
    decreases ids.len(),
{
    if ids.len() == 0 {
        Seq::empty()
    } else {
        let prev = without_all(s, ids.drop_last());
        let p = position(prev, ids.last());
        taken_by_all(s, ids.drop_last()) + if p >= 0 {
            seq![prev[p]]
        } else {
            Seq::empty()
        }
    }
}

/// No two entries of `s` belong to the same player.
pub open spec fn distinct_players(s: Seq<QueueEntry>) -> bool {
    forall|i: int, j: int|
        0 <= i < s.len() && 0 <= j < s.len() && i != j ==> s[i].player_id != s[j].player_id
}

/// Two first positions are the same position.
pub proof fn lemma_first_unique(s: Seq<QueueEntry>, pid: PlayerId, i: int, j: int)
    requires
        is_first(s, pid, i),
        is_first(s, pid, j),
    ensures
        i == j,
{
    if i < j {
        assert(s[i].player_id != pid);
    } else if j < i {
        assert(s[j].player_id != pid);
    }
}

/// `position` is the first position holding `pid` when there is one.
pub proof fn lemma_position_is_first(s: Seq<QueueEntry>, pid: PlayerId, i: int)
    requires
        is_first(s, pid, i),
    ensures
        position(s, pid) == i,
{
    let c = choose|k: int| is_first(s, pid, k);
    lemma_first_unique(s, pid, i, c);
}

/// `position` is `-1` when no entry holds `pid`.
pub proof fn lemma_position_absent(s: Seq<QueueEntry>, pid: PlayerId)
    requires
        forall|j: int| 0 <= j < s.len() ==> s[j].player_id != pid,
    ensures
        position(s, pid) == -1,
{
}

/// Finds the first position of `pid` in `s`.
fn find_position(s: &Vec<QueueEntry>, pid: PlayerId) -> (res: Option<usize>)
    ensures
        match res {
            Some(i) => is_first(s@, pid, i as int) && position(s@, pid) == i,
            None => position(s@, pid) == -1 && forall|j: int|
                0 <= j < s@.len() ==> s@[j].player_id != pid,
        },
{
    let mut i: usize = 0;
    while i < s.len()
        invariant
            i <= s@.len(),
            forall|j: int| 0 <= j < i ==> s@[j].player_id != pid,
        decreases s@.len() - i,
    {
        if s[i].player_id == pid {
            proof {
                lemma_position_is_first(s@, pid, i as int);
            }
            return Some(i);
        }
        i = i + 1;
    }
    None
}

/// Entries in the order in which they joined.
#[derive(Debug, Default)]
pub struct Queue {
    entries: Vec<QueueEntry>,
}

impl View for Queue {
    type V = Seq<QueueEntry>;

    closed spec fn view(&self) -> Seq<QueueEntry> {
        self.entries@
    }
}

impl Queue {
    /// An empty queue.
    pub fn new() -> (q: Queue)
        ensures
            q@ == Seq::<QueueEntry>::empty(),
    {
        Queue { entries: Vec::new() }
    }

    /// Puts `entry` at the back of the queue.
    pub fn enqueue(&mut self, entry: QueueEntry)
        ensures
            final(self)@ == old(self)@.push(entry),
    {
        self.entries.push(entry);
    }

    /// Takes out the first entry of `player_id`, if there is one.
    pub fn remove(&mut self, player_id: PlayerId) -> (res: Option<QueueEntry>)
        ensures
            final(self)@ == without(old(self)@, player_id),
            position(old(self)@, player_id) >= 0 ==> res == Some(
                old(self)@[position(old(self)@, player_id)],
            ),
            position(old(self)@, player_id) < 0 ==> res == None::<QueueEntry>,
    {
        match find_position(&self.entries, player_id) {
            Some(i) => Some(self.entries.remove(i)),
            None => None,
        }
    }

    /// Takes out the first entry of each id of `player_ids` in turn; returns
    /// the entries taken out, skipping ids that were not queued.
    pub fn remove_batch(&mut self, player_ids: &[PlayerId]) -> (removed: Vec<QueueEntry>)
        ensures
            final(self)@ == without_all(old(self)@, player_ids@),
            removed@ == taken_by_all(old(self)@, player_ids@),
    {
        let mut removed: Vec<QueueEntry> = Vec::new();
        let mut k: usize = 0;
        while k < player_ids.len()
            invariant
                k <= player_ids@.len(),
                self@ == without_all(old(self)@, player_ids@.subrange(0, k as int)),
                removed@ == taken_by_all(old(self)@, player_ids@.subrange(0, k as int)),
            decreases player_ids@.len() - k,
        {
            let ghost prefix = player_ids@.subrange(0, k as int);
            let ghost next = player_ids@.subrange(0, k + 1);
            let ghost before = self@;
            assert(next.drop_last() =~= prefix);
            let pid = player_ids[k];
            if let Some(entry) = self.remove(pid) {
                removed.push(entry);
            }
            k = k + 1;
            assert(removed@ =~= taken_by_all(old(self)@, next));
        }
        assert(player_ids@.subrange(0, player_ids@.len() as int) =~= player_ids@);
        removed
    }

    /// How long `player_id` has been waiting at `now`, if queued.
    pub fn waiting_time(&self, player_id: PlayerId, now: SimTime) -> (res: Option<SimTime>)
        ensures
            position(self@, player_id) >= 0 ==> res == Some(
                now.duration_since_spec(self@[position(self@, player_id)].joined_at),
            ),
            position(self@, player_id) < 0 ==> res == None::<SimTime>,
    {
        match find_position(&self.entries, player_id) {
            Some(i) => Some(now.duration_since(self.entries[i].joined_at)),
            None => None,
        }
    }

    /// The queued entries, oldest first.
    pub fn entries(&self) -> (res: &[QueueEntry])
        ensures
            res@ == self@,
    {
        self.entries.as_slice()
    }

    /// Number of queued entries.
    pub fn len(&self) -> (n: usize)
        ensures
            n == self@.len(),
    {
        self.entries.len()
    }

    /// Whether nothing is queued.
    pub fn is_empty(&self) -> (b: bool)
        ensures
            b == (self@.len() == 0),
    {
        self.entries.len() == 0
    }

    /// A queue holding `entries` in the given order.
    pub fn from_entries(entries: Vec<QueueEntry>) -> (q: Queue)
        ensures
            q@ == entries@,
    {
        Queue { entries }
    }
}

} // verus!

verus! {

/// The entries of `s` whose player is not listed in `ids`, in queue order.
pub open spec fn unlisted(s: Seq<QueueEntry>, ids: Seq<PlayerId>) -> Seq<QueueEntry>
    decreases s.len(),
{
    if s.len() == 0 {
        s
    } else if ids.contains(s[0].player_id) {
        unlisted(s.drop_first(), ids)
    } else {
        seq![s[0]] + unlisted(s.drop_first(), ids)
    }
}

proof fn lemma_position_step(s: Seq<QueueEntry>, pid: PlayerId)
    requires
        s.len() > 0,
        s[0].player_id != pid,
    ensures
        position(s, pid) >= 0 <==> position(s.drop_first(), pid) >= 0,
        position(s, pid) >= 0 ==> position(s, pid) == position(s.drop_first(), pid) + 1,
{
    let t = s.drop_first();
    if exists|i: int| is_first(t, pid, i) {
        let i = choose|i: int| is_first(t, pid, i);
        lemma_position_is_first(t, pid, i);
        assert forall|j: int| 0 <= j < i + 1 implies s[j].player_id != pid by {
            if j > 0 {
                assert(t[j - 1] == s[j]);
            }
        }
        assert(is_first(s, pid, i + 1));
        lemma_position_is_first(s, pid, i + 1);
    } else {
        assert forall|j: int| 0 <= j < t.len() implies t[j].player_id != pid by {
            if t[j].player_id == pid {
                lemma_first_exists(t, pid, j);
            }
        }
        assert forall|j: int| 0 <= j < s.len() implies s[j].player_id != pid by {
            if j > 0 {
                assert(t[j - 1] == s[j]);
            }
        }
        lemma_position_absent(s, pid);
    }
}

proof fn lemma_first_exists(s: Seq<QueueEntry>, pid: PlayerId, j: int)
    requires
        0 <= j < s.len(),
        s[j].player_id == pid,
    ensures
        exists|i: int| is_first(s, pid, i),
    decreases j,
{
    if forall|k: int| 0 <= k < j ==> s[k].player_id != pid {
        assert(is_first(s, pid, j));
    } else {
        let k = choose|k: int| 0 <= k < j && s[k].player_id == pid;
        lemma_first_exists(s, pid, k);
    }
}

proof fn lemma_unlisted_none(s: Seq<QueueEntry>, ids: Seq<PlayerId>)
    requires
        forall|j: int| 0 <= j < s.len() ==> !ids.contains(#[trigger] s[j].player_id),
    ensures
        unlisted(s, ids) == s,
    decreases s.len(),
{
    if s.len() > 0 {
        assert(!ids.contains(s[0].player_id));
        assert forall|j: int| 0 <= j < s.drop_first().len() implies !ids.contains(
            #[trigger] s.drop_first()[j].player_id,
        ) by {
            assert(s.drop_first()[j] == s[j + 1]);
        }
        lemma_unlisted_none(s.drop_first(), ids);
        assert(seq![s[0]] + s.drop_first() =~= s);
    }
}

proof fn lemma_without_is_unlisted(s: Seq<QueueEntry>, pid: PlayerId)
    requires
        distinct_players(s),
    ensures
        without(s, pid) == unlisted(s, seq![pid]),
    decreases s.len(),
{
    let ids = seq![pid];
    assert forall|x: PlayerId| ids.contains(x) <==> x == pid by {
        if x == pid {
            assert(ids[0] == x);
        }
    }
    if s.len() == 0 {
        lemma_position_absent(s, pid);
    } else if s[0].player_id == pid {
        assert(is_first(s, pid, 0));
        lemma_position_is_first(s, pid, 0);
        let t = s.drop_first();
        assert forall|j: int| 0 <= j < t.len() implies !ids.contains(#[trigger] t[j].player_id) by {
            assert(t[j] == s[j + 1]);
            assert(s[j + 1].player_id != s[0].player_id);
        }
        lemma_unlisted_none(t, ids);
        assert(s.remove(0) =~= t);
    } else {
        let t = s.drop_first();
        assert(distinct_players(t)) by {
            assert forall|i: int, j: int|
                0 <= i < t.len() && 0 <= j < t.len() && i != j implies t[i].player_id
                != t[j].player_id by {
                assert(t[i] == s[i + 1] && t[j] == s[j + 1]);
            }
        }
        lemma_without_is_unlisted(t, pid);
        lemma_position_step(s, pid);
        if position(s, pid) >= 0 {
            assert(s.remove(position(s, pid)) =~= seq![s[0]] + t.remove(position(t, pid)));
        } else {
            assert(seq![s[0]] + t =~= s);
        }
    }
}

proof fn lemma_unlisted_twice(s: Seq<QueueEntry>, ids: Seq<PlayerId>, pid: PlayerId)
    ensures
        unlisted(unlisted(s, ids), seq![pid]) == unlisted(s, ids.push(pid)),
    decreases s.len(),
{
    let one = seq![pid];
    let both = ids.push(pid);
    assert forall|x: PlayerId| both.contains(x) <==> ids.contains(x) || x == pid by {
        if ids.contains(x) {
            let i = choose|i: int| 0 <= i < ids.len() && ids[i] == x;
            assert(both[i] == x);
        }
        if x == pid {
            assert(both[ids.len() as int] == x);
        }
        if both.contains(x) {
            let i = choose|i: int| 0 <= i < both.len() && both[i] == x;
            if i < ids.len() {
                assert(ids[i] == x);
            }
        }
    }
    assert forall|x: PlayerId| one.contains(x) <==> x == pid by {
        if x == pid {
            assert(one[0] == x);
        }
    }
    if s.len() > 0 {
        lemma_unlisted_twice(s.drop_first(), ids, pid);
        if !ids.contains(s[0].player_id) {
            let u = unlisted(s, ids);
            assert(u[0] == s[0]);
            assert(u.drop_first() =~= unlisted(s.drop_first(), ids));
        }
    }
}

proof fn lemma_unlisted_members(s: Seq<QueueEntry>, ids: Seq<PlayerId>, k: int)
    requires
        0 <= k < unlisted(s, ids).len(),
    ensures
        exists|j: int| 0 <= j < s.len() && s[j] == unlisted(s, ids)[k],
    decreases s.len(),
{
    let t = s.drop_first();
    if ids.contains(s[0].player_id) {
        lemma_unlisted_members(t, ids, k);
        let j = choose|j: int| 0 <= j < t.len() && t[j] == unlisted(t, ids)[k];
        assert(s[j + 1] == t[j]);
    } else if k > 0 {
        lemma_unlisted_members(t, ids, k - 1);
        let j = choose|j: int| 0 <= j < t.len() && t[j] == unlisted(t, ids)[k - 1];
        assert(s[j + 1] == t[j]);
    } else {
        assert(s[0] == unlisted(s, ids)[0]);
    }
}

proof fn lemma_unlisted_distinct(s: Seq<QueueEntry>, ids: Seq<PlayerId>)
    requires
        distinct_players(s),
    ensures
        distinct_players(unlisted(s, ids)),
    decreases s.len(),
{
    if s.len() > 0 {
        let t = s.drop_first();
        assert(distinct_players(t)) by {
            assert forall|i: int, j: int|
                0 <= i < t.len() && 0 <= j < t.len() && i != j implies t[i].player_id
                != t[j].player_id by {
                assert(t[i] == s[i + 1] && t[j] == s[j + 1]);
            }
        }
        lemma_unlisted_distinct(t, ids);
        if !ids.contains(s[0].player_id) {
            let u = unlisted(s, ids);
            let ut = unlisted(t, ids);
            assert forall|i: int, j: int|
                0 <= i < u.len() && 0 <= j < u.len() && i != j implies u[i].player_id
                != u[j].player_id by {
                if i == 0 {
                    lemma_unlisted_members(t, ids, j - 1);
                    let m = choose|m: int| 0 <= m < t.len() && t[m] == ut[j - 1];
                    assert(s[m + 1] == t[m]);
                } else if j == 0 {
                    lemma_unlisted_members(t, ids, i - 1);
                    let m = choose|m: int| 0 <= m < t.len() && t[m] == ut[i - 1];
                    assert(s[m + 1] == t[m]);
                } else {
                    assert(u[i] == ut[i - 1] && u[j] == ut[j - 1]);
                }
            }
        }
    }
}

/// On a queue where every player appears once, removing a batch of ids
/// leaves exactly the entries of the players not in the batch, in their
/// relative order.
pub proof fn lemma_remove_batch_keeps_unlisted(s: Seq<QueueEntry>, ids: Seq<PlayerId>)
    requires
        distinct_players(s),
    ensures
        without_all(s, ids) == unlisted(s, ids),
    decreases ids.len(),
{
    if ids.len() == 0 {
        lemma_unlisted_none(s, ids);
    } else {
        let prefix = ids.drop_last();
        lemma_remove_batch_keeps_unlisted(s, prefix);
        lemma_unlisted_distinct(s, prefix);
        lemma_without_is_unlisted(unlisted(s, prefix), ids.last());
        lemma_unlisted_twice(s, prefix, ids.last());
        assert(prefix.push(ids.last()) =~= ids);
    }
}

/// Removing a player who was just enqueued, and was not queued before,
/// gives back that entry and the queue as it was.
pub proof fn lemma_enqueue_then_remove(s: Seq<QueueEntry>, e: QueueEntry)
    requires
        position(s, e.player_id) < 0,
    ensures
        position(s.push(e), e.player_id) == s.len(),
        s.push(e)[position(s.push(e), e.player_id)] == e,
        without(s.push(e), e.player_id) == s,
{
    let pid = e.player_id;
    assert forall|j: int| 0 <= j < s.len() implies s[j].player_id != pid by {
        if s[j].player_id == pid {
            lemma_first_exists(s, pid, j);
            let i = choose|i: int| is_first(s, pid, i);
            lemma_position_is_first(s, pid, i);
        }
    }
    let t = s.push(e);
    assert(is_first(t, pid, s.len() as int));
    lemma_position_is_first(t, pid, s.len() as int);
    assert(t.remove(s.len() as int) =~= s);
}

} // verus!
