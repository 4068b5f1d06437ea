//! Lexicographic enumeration of the `k`-element selections of a sequence.
use vstd::prelude::*;

verus! {

/// The `k`-element selections of `items`, in lexicographic order of the
/// selected positions: every selection that keeps the first item (followed
/// by the selections of `k - 1` from the rest), then every selection that
/// skips it.
pub open spec fn combos<T>(items: Seq<T>, k: nat) -> Seq<Seq<T>>
    decreases items.len(),
{
    if k == 0 {
        seq![Seq::<T>::empty()]
    } else if items.len() == 0 || k > items.len() {
        Seq::<Seq<T>>::empty()
    } else {
        let rest = items.drop_first();
        combos(rest, (k - 1) as nat).map_values(|c: Seq<T>| seq![items[0]] + c) + combos(rest, k)
    }
}

/// The binomial coefficient `n choose k`.
pub open spec fn binomial(n: nat, k: nat) -> nat
    decreases n,
{
    if k == 0 {
        1
    } else if n == 0 {
        0
    } else {
        binomial((n - 1) as nat, (k - 1) as nat) + binomial((n - 1) as nat, k)
    }
}

/// `idx` picks `c` out of `items`: strictly increasing positions of `items`
/// whose entries, in order, are `c`.
pub open spec fn picks<T>(items: Seq<T>, c: Seq<T>, idx: Seq<int>) -> bool {
    &&& idx.len() == c.len()
    &&& forall|i: int| 0 <= i < idx.len() ==> 0 <= #[trigger] idx[i] < items.len()
    &&& forall|i: int, j: int| 0 <= i < j < idx.len() ==> idx[i] < idx[j]
    &&& forall|i: int| 0 <= i < idx.len() ==> c[i] == items[#[trigger] idx[i]]
}

/// `c` is a subsequence of `items`.
pub open spec fn is_selection<T>(items: Seq<T>, c: Seq<T>) -> bool {
    exists|idx: Seq<int>| picks(items, c, idx)
}

/// The number of `k`-selections of `n` items is `n choose k`.
pub proof fn lemma_combos_len<T>(items: Seq<T>, k: nat)
    ensures
        combos(items, k).len() == binomial(items.len(), k),
    decreases items.len(),
{
    if k == 0 {
    } else if items.len() == 0 {
    } else if k > items.len() {
        lemma_binomial_zero_above(items.len(), k);
    } else {
        lemma_combos_len(items.drop_first(), (k - 1) as nat);
        lemma_combos_len(items.drop_first(), k);
    }
}

/// `n choose k` is zero when `k` exceeds `n`.
pub proof fn lemma_binomial_zero_above(n: nat, k: nat)
    requires
        k > n,
    ensures
        binomial(n, k) == 0,
    decreases n,
{
    if n > 0 {
        lemma_binomial_zero_above((n - 1) as nat, (k - 1) as nat);
        lemma_binomial_zero_above((n - 1) as nat, k);
    }
}

/// Every enumerated selection has exactly `k` items and is a subsequence of
/// `items`.
pub proof fn lemma_combos_are_selections<T>(items: Seq<T>, k: nat, i: int)
    requires
        0 <= i < combos(items, k).len(),
    ensures
        combos(items, k)[i].len() == k,
        is_selection(items, combos(items, k)[i]),
    decreases items.len(),
{
    if k == 0 {
        let idx = Seq::<int>::empty();
        assert(picks(items, combos(items, k)[i], idx));
    } else if items.len() == 0 || k > items.len() {
    } else {
        let rest = items.drop_first();
        let left = combos(rest, (k - 1) as nat);
        let right = combos(rest, k);
        if i < left.len() {
            lemma_combos_are_selections(rest, (k - 1) as nat, i);
            let c = left[i];
            let idx = choose|idx: Seq<int>| picks(rest, c, idx);
            let idx2 = seq![0int] + idx.map_values(|x: int| x + 1);
            let full = seq![items[0]] + c;
            assert(combos(items, k)[i] == full);
            assert forall|a: int, b: int| 0 <= a < b < idx2.len() implies idx2[a] < idx2[b] by {
                if a > 0 {
                    assert(idx[a - 1] < idx[b - 1]);
                } else {
                    assert(0 <= idx[b - 1]);
                }
            }
            assert forall|a: int| 0 <= a < idx2.len() implies full[a] == items[#[trigger] idx2[a]] by {
                if a > 0 {
                    assert(c[a - 1] == rest[idx[a - 1]]);
                }
            }
            assert forall|a: int| 0 <= a < idx2.len() implies 0 <= #[trigger] idx2[a] < items.len() by {
                if a > 0 {
                    assert(0 <= idx[a - 1] < rest.len());
                }
            }
            assert(picks(items, full, idx2));
        } else {
            let j = i - left.len();
            lemma_combos_are_selections(rest, k, j);
            let c = right[j];
            let idx = choose|idx: Seq<int>| picks(rest, c, idx);
            let idx2 = idx.map_values(|x: int| x + 1);
            assert(combos(items, k)[i] == c);
            assert forall|a: int| 0 <= a < idx2.len() implies c[a] == items[#[trigger] idx2[a]] by {
                assert(c[a] == rest[idx[a]]);
            }
            assert forall|a: int| 0 <= a < idx2.len() implies 0 <= #[trigger] idx2[a] < items.len() by {
                assert(0 <= idx[a] < rest.len());
            }
            assert forall|a: int, b: int| 0 <= a < b < idx2.len() implies idx2[a] < idx2[b] by {
                assert(idx[a] < idx[b]);
            }
            assert(picks(items, c, idx2));
        }
    }
}

/// The views of a vector of vectors.
pub open spec fn views<T>(v: Seq<Vec<T>>) -> Seq<Seq<T>> {
    v.map_values(|c: Vec<T>| c@)
}

/// `c` with `first` put in front.
fn prepend<T: Copy>(first: T, c: &Vec<T>) -> (res: Vec<T>)
    ensures
        res@ == seq![first] + c@,
{
    let mut res: Vec<T> = Vec::new();
    res.push(first);
    let mut j: usize = 0;
    while j < c.len()
        invariant
            j <= c.len(),
            res@ == seq![first] + c@.subrange(0, j as int),
        decreases c.len() - j,
    {
        res.push(c[j]);
        j = j + 1;
        assert(c@.subrange(0, j as int) == c@.subrange(0, j - 1) + seq![c@[j - 1]]);
    }
    assert(c@.subrange(0, c.len() as int) == c@);
    res
}

fn combinations_from<T: Copy>(items: &[T], start: usize, k: usize) -> (res: Vec<Vec<T>>)
    requires
        start <= items@.len(),
    ensures
        views(res@) == combos(items@.skip(start as int), k as nat),
    decreases items@.len() - start,
{
    let ghost tail = items@.skip(start as int);
    if k == 0 {
        let res: Vec<Vec<T>> = vec![Vec::new()];
        assert(views(res@) =~= combos(tail, 0));
        return res;
    }
    if start == items.len() || k > items.len() - start {
        let res: Vec<Vec<T>> = Vec::new();
        assert(views(res@) =~= combos(tail, k as nat));
        return res;
    }
    let first = items[start];
    assert(tail.drop_first() =~= items@.skip(start + 1));
    let with_first = combinations_from(items, start + 1, k - 1);
    let mut result: Vec<Vec<T>> = Vec::new();
    let ghost prefixed = views(with_first@).map_values(|c: Seq<T>| seq![tail[0]] + c);
    let mut i: usize = 0;
    while i < with_first.len()
        invariant
            i <= with_first@.len(),
            first == tail[0],
            prefixed == views(with_first@).map_values(|c: Seq<T>| seq![tail[0]] + c),
            views(result@) == prefixed.subrange(0, i as int),
        decreases with_first@.len() - i,
    {
        let c = prepend(first, &with_first[i]);
        let ghost before = result@;
        result.push(c);
        proof {
            assert(prefixed[i as int] == seq![tail[0]] + with_first@[i as int]@);
            assert(views(result@) =~= views(before).push(c@));
        }
        i = i + 1;
        assert(views(result@) =~= prefixed.subrange(0, i as int));
    }
    let mut without = combinations_from(items, start + 1, k);
    let ghost front = result@;
    let ghost back = without@;
    result.append(&mut without);
    proof {
        assert(views(front) =~= prefixed);
        assert(views(result@) =~= views(front) + views(back));
        assert(prefixed =~= combos(tail.drop_first(), (k - 1) as nat).map_values(
            |c: Seq<T>| seq![tail[0]] + c,
        ));
    }
    assert(views(result@) =~= combos(tail, k as nat));
    result
}

/// Every selection of `k` items out of `items`, in lexicographic order of
/// the selected positions.
pub fn combinations<T: Copy>(items: &[T], k: usize) -> (res: Vec<Vec<T>>)
    ensures
        views(res@) == combos(items@, k as nat),
{
    assert(items@.skip(0) =~= items@);
    combinations_from(items, 0, k)
}

} // verus!
