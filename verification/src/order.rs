//! Stable ordering of positions by integer keys.
use vstd::prelude::*;

verus! {

/// Position `i` comes strictly before position `j` when ordering by key
/// (ascending, or descending when `desc`), ties broken by position.
pub open spec fn before(keys: Seq<u64>, desc: bool, i: int, j: int) -> bool {
    if keys[i] == keys[j] {
        i < j
    } else if desc {
        keys[i] > keys[j]
    } else {
        keys[i] < keys[j]
    }
}

/// `perm` lists every position `0 .. n` exactly once.
pub open spec fn is_permutation(perm: Seq<usize>, n: nat) -> bool {
    &&& perm.len() == n
    &&& forall|i: int| 0 <= i < perm.len() ==> #[trigger] perm[i] < n
    &&& forall|i: int, j: int| 0 <= i < j < perm.len() ==> perm[i] != perm[j]
}

/// `perm` lists the positions of `keys` in stable key order.
pub open spec fn is_stable_order(keys: Seq<u64>, desc: bool, perm: Seq<usize>) -> bool {
    &&& is_permutation(perm, keys.len())
    &&& forall|i: int, j: int|
        0 <= i < j < perm.len() ==> before(keys, desc, #[trigger] perm[i] as int, #[trigger] perm[j] as int)
}

fn goes_before(keys: &[u64], desc: bool, i: usize, j: usize) -> (b: bool)
    requires
        i < keys@.len(),
        j < keys@.len(),
    ensures
        b == before(keys@, desc, i as int, j as int),
{
    if keys[i] == keys[j] {
        i < j
    } else if desc {
        keys[i] > keys[j]
    } else {
        keys[i] < keys[j]
    }
}

/// The positions of `keys`, ordered by key (ascending, or descending when
/// `desc`); positions with equal keys keep their relative order.
pub fn stable_order(keys: &[u64], desc: bool) -> (perm: Vec<usize>)
    ensures
        is_stable_order(keys@, desc, perm@),
{
    let n = keys.len();
    let mut perm: Vec<usize> = Vec::new();
    let mut k: usize = 0;
    while k < n
        invariant
            n == keys@.len(),
            k <= n,
            perm@.len() == k,
            forall|i: int| 0 <= i < perm@.len() ==> #[trigger] perm@[i] < k,
            forall|i: int, j: int| 0 <= i < j < perm@.len() ==> perm@[i] != perm@[j],
            forall|i: int, j: int|
                0 <= i < j < perm@.len() ==> before(
                    keys@,
                    desc,
                    #[trigger] perm@[i] as int,
                    #[trigger] perm@[j] as int,
                ),
        decreases n - k,
    {
        // find the slot of k: after every position that comes before it
        let mut pos: usize = perm.len();
        while pos > 0 && !goes_before(keys, desc, perm[pos - 1], k)
            invariant
                n == keys@.len(),
                k < n,
                pos <= perm@.len(),
                forall|i: int| 0 <= i < perm@.len() ==> #[trigger] perm@[i] < k,
                forall|i: int| pos <= i < perm@.len() ==> before(keys@, desc, k as int, #[trigger] perm@[i] as int),
            decreases pos,
        {
            pos = pos - 1;
        }
        proof {
            if pos > 0 {
                assert(before(keys@, desc, perm@[pos - 1] as int, k as int));
                assert forall|i: int| 0 <= i < pos implies before(keys@, desc, #[trigger] perm@[i] as int, k as int) by {
                    if i < pos - 1 {
                        assert(before(keys@, desc, perm@[i] as int, perm@[pos - 1] as int));
                    }
                }
            }
        }
        let ghost old_perm = perm@;
        perm.insert(pos, k);
        proof {
            assert forall|i: int, j: int| 0 <= i < j < perm@.len() implies before(
                keys@,
                desc,
                #[trigger] perm@[i] as int,
                #[trigger] perm@[j] as int,
            ) by {
                if j < pos {
                    assert(perm@[i] == old_perm[i] && perm@[j] == old_perm[j]);
                } else if j == pos {
                    assert(perm@[i] == old_perm[i]);
                } else if i == pos {
                    assert(perm@[j] == old_perm[j - 1]);
                } else if i < pos {
                    assert(perm@[i] == old_perm[i] && perm@[j] == old_perm[j - 1]);
                } else {
                    assert(perm@[i] == old_perm[i - 1] && perm@[j] == old_perm[j - 1]);
                }
            }
            assert forall|i: int, j: int| 0 <= i < j < perm@.len() implies perm@[i] != perm@[j] by {
                if i != pos && j != pos {
                    let oi = if i < pos { i } else { i - 1 };
                    let oj = if j < pos { j } else { j - 1 };
                    assert(perm@[i] == old_perm[oi] && perm@[j] == old_perm[oj]);
                } else if i == pos {
                    assert(perm@[j] == old_perm[j - 1]);
                } else {
                    assert(perm@[i] == old_perm[i]);
                }
            }
            assert forall|i: int| 0 <= i < perm@.len() implies #[trigger] perm@[i] < k + 1 by {
                if i < pos {
                    assert(perm@[i] == old_perm[i]);
                } else if i > pos {
                    assert(perm@[i] == old_perm[i - 1]);
                }
            }
        }
        k = k + 1;
    }
    perm
}

/// A sequence of distinct positions below `m` has at most `m` of them, and
/// holds every position below `m` when it has exactly `m`.
pub(crate) proof fn lemma_distinct_below(s: Seq<usize>, m: nat)
    requires
        forall|i: int| 0 <= i < s.len() ==> #[trigger] s[i] < m,
        forall|i: int, j: int| 0 <= i < j < s.len() ==> s[i] != s[j],
    ensures
        s.len() <= m,
        s.len() == m ==> forall|x: usize| x < m ==> s.contains(x),
    decreases m,
{
    if m == 0 {
        if s.len() > 0 {
            assert(s[0] < 0);
        }
    } else {
        let top = (m - 1) as usize;
        if s.contains(top) {
            let i = choose|i: int| 0 <= i < s.len() && s[i] == top;
            let r = s.remove(i);
            assert forall|k: int| 0 <= k < r.len() implies #[trigger] r[k] < (m - 1) as nat by {
                let o = if k < i { k } else { k + 1 };
                assert(r[k] == s[o]);
                assert(s[o] != s[i]);
            }
            assert forall|a: int, b: int| 0 <= a < b < r.len() implies r[a] != r[b] by {
                let oa = if a < i { a } else { a + 1 };
                let ob = if b < i { b } else { b + 1 };
                assert(r[a] == s[oa] && r[b] == s[ob]);
            }
            lemma_distinct_below(r, (m - 1) as nat);
            if s.len() == m {
                assert forall|x: usize| x < m implies s.contains(x) by {
                    if x == top {
                        assert(s[i] == x);
                    } else {
                        assert(r.contains(x));
                        let k = choose|k: int| 0 <= k < r.len() && r[k] == x;
                        let o = if k < i { k } else { k + 1 };
                        assert(s[o] == x);
                    }
                }
            }
        } else {
            assert forall|k: int| 0 <= k < s.len() implies #[trigger] s[k] < (m - 1) as nat by {
                assert(s[k] != top);
            }
            lemma_distinct_below(s, (m - 1) as nat);
        }
    }
}

/// Two sequences that hold the same positions, each sorted strictly by
/// `before`, are equal.
proof fn lemma_sorted_same(a: Seq<usize>, b: Seq<usize>, keys: Seq<u64>, desc: bool)
    requires
        a.len() == b.len(),
        forall|i: int| 0 <= i < a.len() ==> #[trigger] a[i] < keys.len(),
        forall|i: int| 0 <= i < b.len() ==> #[trigger] b[i] < keys.len(),
        forall|x: usize| a.contains(x) <==> b.contains(x),
        forall|i: int, j: int| 0 <= i < j < a.len() ==> before(keys, desc, #[trigger] a[i] as int, #[trigger] a[j] as int),
        forall|i: int, j: int| 0 <= i < j < b.len() ==> before(keys, desc, #[trigger] b[i] as int, #[trigger] b[j] as int),
    ensures
        a == b,
    decreases a.len(),
{
    if a.len() == 0 {
        assert(a =~= b);
    } else {
        assert(a.contains(a[0]));
        let j = choose|j: int| 0 <= j < b.len() && b[j] == a[0];
        if j > 0 {
            assert(b.contains(b[0]));
            let i = choose|i: int| 0 <= i < a.len() && a[i] == b[0];
            assert(before(keys, desc, b[0] as int, b[j] as int));
            if i > 0 {
                assert(before(keys, desc, a[0] as int, a[i] as int));
            }
            assert(false);
        }
        let ta = a.drop_first();
        let tb = b.drop_first();
        assert forall|x: usize| ta.contains(x) <==> tb.contains(x) by {
            if ta.contains(x) {
                let k = choose|k: int| 0 <= k < ta.len() && ta[k] == x;
                assert(a[k + 1] == x);
                assert(before(keys, desc, a[0] as int, a[k + 1] as int));
                assert(b.contains(x));
                let l = choose|l: int| 0 <= l < b.len() && b[l] == x;
                assert(l != 0);
                assert(tb[l - 1] == x);
            }
            if tb.contains(x) {
                let k = choose|k: int| 0 <= k < tb.len() && tb[k] == x;
                assert(b[k + 1] == x);
                assert(before(keys, desc, b[0] as int, b[k + 1] as int));
                assert(a.contains(x));
                let l = choose|l: int| 0 <= l < a.len() && a[l] == x;
                assert(l != 0);
                assert(ta[l - 1] == x);
            }
        }
        assert forall|p: int, q: int| 0 <= p < q < ta.len() implies before(keys, desc, #[trigger] ta[p] as int, #[trigger] ta[q] as int) by {
            assert(ta[p] == a[p + 1] && ta[q] == a[q + 1]);
        }
        assert forall|p: int, q: int| 0 <= p < q < tb.len() implies before(keys, desc, #[trigger] tb[p] as int, #[trigger] tb[q] as int) by {
            assert(tb[p] == b[p + 1] && tb[q] == b[q + 1]);
        }
        lemma_sorted_same(ta, tb, keys, desc);
        assert(a =~= seq![a[0]] + ta);
        assert(b =~= seq![b[0]] + tb);
    }
}

/// The stable order of a list of keys is unique: two stable orders of the
/// same keys, in the same direction, are the same sequence of positions.
pub proof fn lemma_stable_order_unique(keys: Seq<u64>, desc: bool, p1: Seq<usize>, p2: Seq<usize>)
    requires
        is_stable_order(keys, desc, p1),
        is_stable_order(keys, desc, p2),
    ensures
        p1 == p2,
{
    lemma_distinct_below(p1, keys.len());
    lemma_distinct_below(p2, keys.len());
    assert forall|x: usize| p1.contains(x) <==> p2.contains(x) by {
        if p1.contains(x) {
            let i = choose|i: int| 0 <= i < p1.len() && p1[i] == x;
            assert(p1[i] < keys.len());
        }
        if p2.contains(x) {
            let i = choose|i: int| 0 <= i < p2.len() && p2[i] == x;
            assert(p2[i] < keys.len());
        }
    }
    lemma_sorted_same(p1, p2, keys, desc);
}

} // verus!
