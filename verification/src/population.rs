//! Whole-player counts per archetype out of fractional shares.
use vstd::prelude::*;
use crate::order::{is_stable_order, stable_order};

verus! {

/// Generates a player population from archetype shares; the counts per
/// archetype come from [`allocate_counts`].
#[derive(Debug, Clone, Copy)]
pub struct PopulationGenerator;

/// Sum of `s`.
pub open spec fn total(s: Seq<u64>) -> int
    decreases s.len(),
{
    if s.len() == 0 {
        0
    } else {
        total(s.drop_last()) + s.last()
    }
}

/// The players left over once every archetype has its floor.
pub open spec fn leftover(floors: Seq<u64>, size: u64) -> int {
    if size > total(floors) {
        size - total(floors)
    } else {
        0
    }
}

proof fn lemma_total_update(s: Seq<u64>, i: int, v: u64)
    requires
        0 <= i < s.len(),
    ensures
        total(s.update(i, v)) == total(s) - s[i] + v,
    decreases s.len(),
{
    if i == s.len() - 1 {
        assert(s.update(i, v).drop_last() =~= s.drop_last());
    } else {
        lemma_total_update(s.drop_last(), i, v);
        assert(s.update(i, v).drop_last() =~= s.drop_last().update(i, v));
    }
}

proof fn lemma_total_bound(s: Seq<u64>, i: int)
    requires
        0 <= i < s.len(),
    ensures
        s[i] <= total(s),
    decreases s.len(),
{
    lemma_total_nonneg(s.drop_last());
    if i < s.len() - 1 {
        lemma_total_bound(s.drop_last(), i);
    }
}

proof fn lemma_total_nonneg(s: Seq<u64>)
    ensures
        total(s) >= 0,
    decreases s.len(),
{
    if s.len() > 0 {
        lemma_total_nonneg(s.drop_last());
    }
}

/// Largest-remainder rounding: every archetype gets its floor, and the
/// `size - total(floors)` players left over (none when the floors already
/// reach `size`) go one each to the archetypes with the largest remainders,
/// in descending order of `remainder_keys`, ties to the earlier archetype.
/// When the floors fall short of `size` by at most the number of
/// archetypes, the counts add up to exactly `size`.
pub fn allocate_counts(floors: &[u64], remainder_keys: &[u64], size: u64) -> (counts: Vec<u64>)
    requires
        remainder_keys@.len() == floors@.len(),
        total(floors@) <= u64::MAX,
    ensures
        counts@.len() == floors@.len(),
        exists|perm: Seq<usize>|
            is_stable_order(remainder_keys@, true, perm) && forall|j: int|
                0 <= j < perm.len() ==> #[trigger] counts@[perm[j] as int] == floors@[perm[j] as int] + if j
                    < leftover(floors@, size) {
                    1int
                } else {
                    0int
                },
        total(counts@) == total(floors@) + if leftover(floors@, size) < floors@.len() {
            leftover(floors@, size)
        } else {
            floors@.len() as int
        },
        total(floors@) <= size <= total(floors@) + floors@.len() ==> total(counts@) == size,
{
    let n = floors.len();
    let mut counts: Vec<u64> = Vec::new();
    let mut sum: u64 = 0;
    let mut i: usize = 0;
    while i < n
        invariant
            n == floors@.len(),
            i <= n,
            total(floors@) <= u64::MAX,
            counts@ == floors@.subrange(0, i as int),
            sum == total(counts@),
        decreases n - i,
    {
        proof {
            assert(floors@.subrange(0, i as int + 1).drop_last() =~= floors@.subrange(0, i as int));
            lemma_total_prefix(floors@, i as int + 1);
        }
        sum = sum + floors[i];
        counts.push(floors[i]);
        i = i + 1;
        assert(counts@ =~= floors@.subrange(0, i as int));
    }
    assert(counts@ =~= floors@);
    let mut left: u64 = if size > sum {
        size - sum
    } else {
        0
    };
    let order = stable_order(remainder_keys, true);
    let ghost lo = leftover(floors@, size);
    let mut j: usize = 0;
    while j < n && left > 0
        invariant
            n == floors@.len(),
            order@.len() == n,
            is_stable_order(remainder_keys@, true, order@),
            j <= n,
            lo == leftover(floors@, size),
            left == lo - j,
            counts@.len() == n,
            total(floors@) <= u64::MAX,
            total(counts@) == total(floors@) + j,
            lo <= u64::MAX - total(floors@),
            forall|k: int|
                0 <= k < n ==> #[trigger] counts@[order@[k] as int] == floors@[order@[k] as int] + if k < j {
                    1int
                } else {
                    0int
                },
        decreases n - j,
    {
        let idx = order[j];
        proof {
            assert(order@[j as int] < n);
            lemma_total_bound(counts@, idx as int);
        }
        let c = counts[idx] + 1;
        proof {
            lemma_total_update(counts@, idx as int, c);
        }
        counts.set(idx, c);
        proof {
            assert forall|k: int| 0 <= k < n implies #[trigger] counts@[order@[k] as int] == floors@[order@[k] as int]
                + if k < j + 1 {
                1int
            } else {
                0int
            } by {
                if k != j {
                    assert(order@[k] != order@[j as int]);
                }
            }
        }
        left = left - 1;
        j = j + 1;
    }
    proof {
        assert(is_stable_order(remainder_keys@, true, order@));
    }
    counts
}

proof fn lemma_total_prefix(s: Seq<u64>, k: int)
    requires
        0 < k <= s.len(),
    ensures
        total(s.subrange(0, k)) == total(s.subrange(0, k - 1)) + s[k - 1],
        total(s.subrange(0, k)) <= total(s),
    decreases s.len(),
{
    assert(s.subrange(0, k).drop_last() =~= s.subrange(0, k - 1));
    if k < s.len() {
        lemma_total_prefix(s.drop_last(), k);
        assert(s.drop_last().subrange(0, k) =~= s.subrange(0, k));
        lemma_total_nonneg(s.drop_last());
    } else {
        assert(s.subrange(0, k) =~= s);
    }
}

} // verus!
