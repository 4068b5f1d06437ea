//! Seeded random numbers, and the shuffles built on them.
use vstd::prelude::*;
use rand::rngs::SmallRng;
use rand::{Rng, RngCore, SeedableRng};
use crate::order::is_permutation;

verus! {

/// rand's small, fast, seedable generator.
#[verifier::external_type_specification]
#[verifier::external_body]
pub struct ExSmallRng(SmallRng);

/// Calls `SmallRng::seed_from_u64`: a generator whose stream is fixed by
/// `seed`. Nothing is stated of the stream.
#[verifier::external_body]
fn small_rng_from_seed(seed: u64) -> SmallRng {
    SmallRng::seed_from_u64(seed)
}

/// Calls `RngCore::next_u64` on a `SmallRng`: any 64-bit value.
#[verifier::external_body]
fn small_rng_next_u64(rng: &mut SmallRng) -> u64 {
    rng.next_u64()
}

/// Calls `Rng::gen_range(0..=hi)` on a `SmallRng`, which the rand docs
/// promise lies in the inclusive range (the range is never empty here).
#[verifier::external_body]
fn small_rng_index_up_to(rng: &mut SmallRng, hi: usize) -> (r: usize)
    ensures
        r <= hi,
{
    rng.gen_range(0..=hi)
}

/// One value drawn from a `SimRng`.
#[derive(Debug, Clone, Copy, PartialEq, Eq, Structural)]
pub enum Draw {
    /// 64 random bits.
    Bits(u64),
    /// A random index below `below`.
    Index { below: usize, value: usize },
}

/// The simulation's deterministic random source. Its view is the history
/// of the values drawn from it, oldest first.
pub struct SimRng {
    inner: SmallRng,
    history: Ghost<Seq<Draw>>,
}

impl View for SimRng {
    type V = Seq<Draw>;

    closed spec fn view(&self) -> Seq<Draw> {
        self.history@
    }
}

impl SimRng {
    /// A generator whose stream is fixed by `seed`, nothing drawn yet.
    pub fn from_seed(seed: u64) -> (r: SimRng)
        ensures
            r@ == Seq::<Draw>::empty(),
    {
        SimRng { inner: small_rng_from_seed(seed), history: Ghost(Seq::empty()) }
    }

    /// The next 64 random bits, recorded in the history.
    pub fn gen_u64(&mut self) -> (r: u64)
        ensures
            final(self)@ == old(self)@.push(Draw::Bits(r)),
    {
        let r = small_rng_next_u64(&mut self.inner);
        self.history = Ghost(self.history@.push(Draw::Bits(r)));
        r
    }

    /// A random index below `n`, recorded in the history.
    pub fn gen_index(&mut self, n: usize) -> (r: usize)
        requires
            n > 0,
        ensures
            r < n,
            final(self)@ == old(self)@.push(Draw::Index { below: n, value: r }),
    {
        let r = small_rng_index_up_to(&mut self.inner, n - 1);
        self.history = Ghost(self.history@.push(Draw::Index { below: n, value: r }));
        r
    }

    /// The underlying generator, for draws the library does not record
    /// (floating-point samples); the history stays as it is.
    pub fn source(&mut self) -> (g: &mut SmallRng)
        ensures
            final(self)@ == old(self)@,
    {
        &mut self.inner
    }
}

/// `s` with the items at `i` and `j` exchanged.
pub open spec fn swap_at<T>(s: Seq<T>, i: int, j: int) -> Seq<T> {
    s.update(i, s[j]).update(j, s[i])
}

/// Fisher-Yates with the swap partners `js`: the `k`-th swap exchanges
/// position `len - 1 - k` with position `js[k]`.
pub open spec fn fy_run<T>(s: Seq<T>, js: Seq<usize>) -> Seq<T>
    decreases js.len(),
{
    if js.len() == 0 {
        s
    } else {
        swap_at(fy_run(s, js.drop_last()), s.len() - js.len(), js.last() as int)
    }
}

/// How many swaps Fisher-Yates makes on `n` items.
pub open spec fn swap_count(n: nat) -> nat {
    if n == 0 {
        0
    } else {
        (n - 1) as nat
    }
}

/// Swap partners for `n` items: the `k`-th lies below `n - k`.
pub open spec fn partners_fit(n: nat, js: Seq<usize>) -> bool {
    forall|k: int| 0 <= k < js.len() ==> #[trigger] js[k] < n - k
}

/// The history of drawing the swap partners `js` of `n` items as indices.
pub open spec fn index_draws(n: nat, js: Seq<usize>) -> Seq<Draw> {
    Seq::new(js.len(), |k: int| Draw::Index { below: (n - k) as usize, value: js[k] })
}

/// The history of drawing the 64-bit values `bs`.
pub open spec fn bits_draws(bs: Seq<u64>) -> Seq<Draw> {
    Seq::new(bs.len(), |k: int| Draw::Bits(bs[k]))
}

/// The swap partners that the 64-bit values `bs` give for `n` items: the
/// `k`-th value modulo `n - k`.
pub open spec fn partners_from_bits(n: nat, bs: Seq<u64>) -> Seq<usize> {
    Seq::new(bs.len(), |k: int| (bs[k] % ((n - k) as u64)) as usize)
}

/// Shuffles `items` with the swap partners `js` (Fisher-Yates from the
/// last position down): the items are those of `fy_run`.
pub fn apply_swaps(items: &mut [usize], js: &[usize])
    requires
        js@.len() == swap_count(old(items)@.len()),
        partners_fit(old(items)@.len(), js@),
    ensures
        final(items)@ == fy_run(old(items)@, js@),
{
    let n = items.len();
    let ghost before = items@;
    let mut k: usize = 0;
    while k < js.len()
        invariant
            n == items@.len(),
            n == before.len(),
            js@.len() == swap_count(n as nat),
            partners_fit(n as nat, js@),
            k <= js@.len(),
            items@ == fy_run(before, js@.subrange(0, k as int)),
        decreases js@.len() - k,
    {
        let i = n - 1 - k;
        let j = js[k];
        proof {
            assert(js@[k as int] < n - k);
            assert(js@.subrange(0, k as int + 1).drop_last() =~= js@.subrange(0, k as int));
        }
        let ai = items[i];
        let aj = items[j];
        items[i] = aj;
        items[j] = ai;
        k = k + 1;
        proof {
            assert(items@ =~= swap_at(fy_run(before, js@.subrange(0, k - 1)), i as int, j as int));
        }
    }
    proof {
        assert(js@.subrange(0, js@.len() as int) =~= js@);
    }
}

/// `after` holds the items of `before` rearranged by `perm`.
pub open spec fn rearranged<T>(before: Seq<T>, after: Seq<T>, perm: Seq<usize>) -> bool {
    &&& after.len() == before.len()
    &&& is_permutation(perm, before.len())
    &&& forall|i: int| 0 <= i < after.len() ==> after[i] == before[#[trigger] perm[i] as int]
}

/// `after` is `before` rearranged.
pub open spec fn is_rearrangement<T>(before: Seq<T>, after: Seq<T>) -> bool {
    exists|perm: Seq<usize>| rearranged(before, after, perm)
}

proof fn lemma_swap_rearranged(before: Seq<usize>, cur: Seq<usize>, perm: Seq<usize>, i: int, j: int)
    requires
        rearranged(before, cur, perm),
        0 <= i < cur.len(),
        0 <= j < cur.len(),
    ensures
        rearranged(
            before,
            cur.update(i, cur[j]).update(j, cur[i]),
            perm.update(i, perm[j]).update(j, perm[i]),
        ),
{
    let p2 = perm.update(i, perm[j]).update(j, perm[i]);
    assert forall|a: int, b: int| 0 <= a < b < p2.len() implies p2[a] != p2[b] by {
        let oa = if a == i { j } else if a == j { i } else { a };
        let ob = if b == i { j } else if b == j { i } else { b };
        assert(p2[a] == perm[oa] && p2[b] == perm[ob]);
    }
}

proof fn lemma_identity_rearranged(s: Seq<usize>)
    requires
        s.len() <= usize::MAX,
    ensures
        rearranged(s, s, Seq::new(s.len(), |i: int| i as usize)),
{
    let p = Seq::new(s.len(), |i: int| i as usize);
    assert forall|i: int| 0 <= i < p.len() implies #[trigger] p[i] < s.len() && p[i] == i by {}
}

/// Shuffles `arr` in place (Fisher-Yates from the last position down,
/// drawing each swap partner with `gen_range(0..=i)`): the result is the
/// swaps of `fy_run` with the partners drawn, which the generator's history
/// records; it is a rearrangement of the input.
pub fn fisher_yates(arr: &mut [usize], rng: &mut SimRng)
    ensures
        exists|js: Seq<usize>|
            #![trigger fy_run(old(arr)@, js)]
            js.len() == swap_count(old(arr)@.len()) && partners_fit(old(arr)@.len(), js) && final(rng)@
                == old(rng)@ + index_draws(old(arr)@.len(), js) && final(arr)@ == fy_run(old(arr)@, js),
        is_rearrangement(old(arr)@, final(arr)@),
{
    let n = arr.len();
    let ghost before = arr@;
    let ghost start = rng@;
    let ghost mut js: Seq<usize> = Seq::empty();
    let ghost mut perm: Seq<usize> = Seq::new(n as nat, |i: int| i as usize);
    proof {
        lemma_identity_rearranged(before);
        assert(index_draws(n as nat, js) =~= Seq::<Draw>::empty());
        assert(rng@ =~= start + index_draws(n as nat, js));
    }
    let mut i: usize = n;
    while i > 1
        invariant
            n == arr@.len(),
            i <= n,
            n > 0 ==> i >= 1,
            before.len() == n,
            rearranged(before, arr@, perm),
            js.len() == n - i,
            partners_fit(n as nat, js),
            rng@ == start + index_draws(n as nat, js),
            arr@ == fy_run(before, js),
        decreases i,
    {
        i = i - 1;
        let j = rng.gen_index(i + 1);
        let ai = arr[i];
        let aj = arr[j];
        proof {
            lemma_swap_rearranged(before, arr@, perm, i as int, j as int);
            perm = perm.update(i as int, perm[j as int]).update(j as int, perm[i as int]);
            let js2 = js.push(j);
            assert(js2.drop_last() =~= js);
            assert(index_draws(n as nat, js2) =~= index_draws(n as nat, js).push(
                Draw::Index { below: (i + 1) as usize, value: j },
            ));
            js = js2;
        }
        arr[i] = aj;
        arr[j] = ai;
        proof {
            assert(arr@ =~= swap_at(fy_run(before, js.drop_last()), i as int, j as int));
        }
    }
    proof {
        assert(js.len() == swap_count(n as nat));
    }
}

/// Shuffles `arr` in place (Fisher-Yates from the last position down,
/// drawing each swap partner as a random 64-bit value modulo `i + 1`): the
/// result is the swaps of `fy_run` with the partners those values give,
/// which the generator's history records; it is a rearrangement of the
/// input.
pub fn shuffle_sim(arr: &mut Vec<usize>, rng: &mut SimRng)
    ensures
        exists|bs: Seq<u64>|
            #![trigger bits_draws(bs)]
            bs.len() == swap_count(old(arr)@.len()) && final(rng)@ == old(rng)@ + bits_draws(bs) && final(arr)@
                == fy_run(old(arr)@, partners_from_bits(old(arr)@.len(), bs)),
        is_rearrangement(old(arr)@, final(arr)@),
{
    let n = arr.len();
    let ghost before = arr@;
    let ghost start = rng@;
    let ghost mut bs: Seq<u64> = Seq::empty();
    let ghost mut perm: Seq<usize> = Seq::new(n as nat, |i: int| i as usize);
    proof {
        lemma_identity_rearranged(before);
        assert(bits_draws(bs) =~= Seq::<Draw>::empty());
        assert(rng@ =~= start + bits_draws(bs));
        assert(partners_from_bits(n as nat, bs) =~= Seq::<usize>::empty());
    }
    let mut i: usize = n;
    while i > 1
        invariant
            n == arr@.len(),
            i <= n,
            n > 0 ==> i >= 1,
            before.len() == n,
            rearranged(before, arr@, perm),
            bs.len() == n - i,
            rng@ == start + bits_draws(bs),
            arr@ == fy_run(before, partners_from_bits(n as nat, bs)),
        decreases i,
    {
        i = i - 1;
        let bits = rng.gen_u64();
        let j = (bits % (i as u64 + 1)) as usize;
        let ai = arr[i];
        let aj = arr[j];
        proof {
            lemma_swap_rearranged(before, arr@, perm, i as int, j as int);
            perm = perm.update(i as int, perm[j as int]).update(j as int, perm[i as int]);
            let bs2 = bs.push(bits);
            assert(bits_draws(bs2) =~= bits_draws(bs).push(Draw::Bits(bits)));
            assert(partners_from_bits(n as nat, bs2).drop_last() =~= partners_from_bits(n as nat, bs));
            assert(partners_from_bits(n as nat, bs2).last() == j);
            bs = bs2;
        }
        arr.set(i, aj);
        arr.set(j, ai);
        proof {
            assert(arr@ =~= swap_at(fy_run(before, partners_from_bits(n as nat, bs).drop_last()), i as int, j as int));
        }
    }
}

} // verus!
