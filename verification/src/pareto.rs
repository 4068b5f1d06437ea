//! Pareto dominance and the Pareto front over objective vectors. Each
//! objective value is an integer key whose order is the order of the value
//! it stands for.
use vstd::prelude::*;
use vstd::math::min;

verus! {

/// In dimension `i`, `a` is strictly better than `b` (larger when
/// maximizing, smaller when minimizing).
pub open spec fn better_at(a: Seq<u64>, b: Seq<u64>, dirs: Seq<bool>, i: int) -> bool {
    if dirs[i] {
        a[i] > b[i]
    } else {
        a[i] < b[i]
    }
}

/// `a` is at least as good as `b` in every compared dimension and strictly
/// better in one; dimensions are compared up to the shorter vector.
pub open spec fn dominates_spec(a: Seq<u64>, b: Seq<u64>, dirs: Seq<bool>) -> bool {
    let n = min(a.len() as int, b.len() as int);
    &&& forall|i: int| 0 <= i < n ==> !better_at(b, a, dirs, i)
    &&& exists|i: int| 0 <= i < n && better_at(a, b, dirs, i)
}

/// Whether `a` Pareto-dominates `b` under `directions` (`true`:
/// maximize).
pub fn dominates(a: &[u64], b: &[u64], directions: &[bool]) -> (res: bool)
    requires
        directions@.len() >= min(a@.len() as int, b@.len() as int),
    ensures
        res == dominates_spec(a@, b@, directions@),
{
    let n = if a.len() < b.len() {
        a.len()
    } else {
        b.len()
    };
    let mut at_least_one_better = false;
    let mut i: usize = 0;
    while i < n
        invariant
            i <= n,
            n == min(a@.len() as int, b@.len() as int),
            directions@.len() >= n,
            forall|j: int| 0 <= j < i ==> !better_at(b@, a@, directions@, j),
            at_least_one_better == exists|j: int| 0 <= j < i && better_at(a@, b@, directions@, j),
        decreases n - i,
    {
        let worse = if directions[i] {
            a[i] < b[i]
        } else {
            a[i] > b[i]
        };
        if worse {
            assert(better_at(b@, a@, directions@, i as int));
            return false;
        }
        let better = if directions[i] {
            a[i] > b[i]
        } else {
            a[i] < b[i]
        };
        if better {
            assert(better_at(a@, b@, directions@, i as int));
            at_least_one_better = true;
        }
        i = i + 1;
    }
    at_least_one_better
}

/// No vector dominates itself.
pub proof fn lemma_dominates_irreflexive(a: Seq<u64>, dirs: Seq<bool>)
    ensures
        !dominates_spec(a, a, dirs),
{
}

/// Two vectors never dominate each other.
pub proof fn lemma_dominates_asymmetric(a: Seq<u64>, b: Seq<u64>, dirs: Seq<bool>)
    requires
        dominates_spec(a, b, dirs),
    ensures
        !dominates_spec(b, a, dirs),
{
    let i = choose|i: int| 0 <= i < min(a.len() as int, b.len() as int) && better_at(a, b, dirs, i);
}

/// Among vectors of one length, dominance is transitive.
pub proof fn lemma_dominates_transitive(a: Seq<u64>, b: Seq<u64>, c: Seq<u64>, dirs: Seq<bool>)
    requires
        a.len() == b.len(),
        b.len() == c.len(),
        dominates_spec(a, b, dirs),
        dominates_spec(b, c, dirs),
    ensures
        dominates_spec(a, c, dirs),
{
    let i = choose|i: int| 0 <= i < a.len() && better_at(a, b, dirs, i);
    assert(!better_at(c, b, dirs, i));
    assert(better_at(a, c, dirs, i));
    assert forall|j: int| 0 <= j < a.len() implies !better_at(c, a, dirs, j) by {
        assert(!better_at(b, a, dirs, j));
        assert(!better_at(c, b, dirs, j));
    }
}

/// Vector `i` of `objs` is dominated by another vector of `objs`.
pub open spec fn dominated_in(objs: Seq<Seq<u64>>, dirs: Seq<bool>, i: int) -> bool {
    exists|j: int| 0 <= j < objs.len() && j != i && dominates_spec(objs[j], objs[i], dirs)
}

/// The positions of the vectors of `objs` that no other vector dominates,
/// in increasing order.
pub open spec fn front_of(objs: Seq<Seq<u64>>, dirs: Seq<bool>) -> Seq<usize> {
    Seq::new(objs.len(), |i: int| i as usize).filter(|i: usize| !dominated_in(objs, dirs, i as int))
}

/// The non-dominated subset of a collection of objective vectors.
#[derive(Debug, Clone, Default)]
pub struct ParetoFront {
    pub indices: Vec<usize>,
}

impl ParetoFront {
    /// An empty front.
    pub fn new() -> (f: ParetoFront)
        ensures
            f.indices@ == Seq::<usize>::empty(),
    {
        ParetoFront { indices: Vec::new() }
    }

    /// Replaces the front by the positions of the vectors of `objectives`
    /// that no other vector dominates, in increasing order.
    pub fn update(&mut self, objectives: &[Vec<u64>], directions: &[bool])
        requires
            forall|i: int|
                0 <= i < objectives@.len() ==> directions@.len() >= (#[trigger] objectives@[i])@.len(),
        ensures
            final(self).indices@ == front_of(objectives@.map_values(|v: Vec<u64>| v@), directions@),
    {
        let ghost objs = objectives@.map_values(|v: Vec<u64>| v@);
        let ghost all = Seq::new(objectives@.len(), |i: int| i as usize);
        let ghost keep = |i: usize| !dominated_in(objs, directions@, i as int);
        let n = objectives.len();
        let mut front: Vec<usize> = Vec::new();
        let mut i: usize = 0;
        while i < n
            invariant
                i <= n,
                n == objectives@.len(),
                objs == objectives@.map_values(|v: Vec<u64>| v@),
                all == Seq::new(objectives@.len(), |k: int| k as usize),
                keep == (|k: usize| !dominated_in(objs, directions@, k as int)),
                forall|k: int|
                    0 <= k < objectives@.len() ==> directions@.len() >= (#[trigger] objectives@[k])@.len(),
                front@ == all.subrange(0, i as int).filter(keep),
            decreases n - i,
        {
            let mut dominated = false;
            let mut j: usize = 0;
            while j < n
                invariant
                    j <= n,
                    i < n,
                    n == objectives@.len(),
                    objs == objectives@.map_values(|v: Vec<u64>| v@),
                    forall|k: int|
                        0 <= k < objectives@.len() ==> directions@.len() >= (#[trigger] objectives@[k])@.len(),
                    dominated == exists|k: int|
                        0 <= k < j && k != i && dominates_spec(objs[k], objs[i as int], directions@),
                decreases n - j,
            {
                if j != i && !dominated {
                    proof {
                        assert(objs[j as int] == objectives@[j as int]@);
                        assert(objs[i as int] == objectives@[i as int]@);
                        assert(directions@.len() >= objectives@[j as int]@.len());
                    }
                    if dominates(objectives[j].as_slice(), objectives[i].as_slice(), directions) {
                        dominated = true;
                    }
                }
                j = j + 1;
            }
            proof {
                reveal(Seq::filter);
                assert(all.subrange(0, i + 1).drop_last() =~= all.subrange(0, i as int));
                assert(all.subrange(0, i + 1).last() == i);
                assert(dominated == dominated_in(objs, directions@, i as int));
            }
            if !dominated {
                front.push(i);
            }
            i = i + 1;
        }
        assert(all.subrange(0, n as int) =~= all);
        self.indices = front;
    }

    /// The objective vectors of the front, in front order.
    pub fn front_objectives<'a>(&self, objectives: &'a [Vec<u64>]) -> (res: Vec<&'a Vec<u64>>)
        requires
            forall|i: int| 0 <= i < self.indices@.len() ==> #[trigger] self.indices@[i] < objectives@.len(),
        ensures
            res@.len() == self.indices@.len(),
            forall|i: int|
                0 <= i < res@.len() ==> *res@[i] == objectives@[#[trigger] self.indices@[i] as int],
    {
        let mut res: Vec<&'a Vec<u64>> = Vec::new();
        let mut i: usize = 0;
        while i < self.indices.len()
            invariant
                i <= self.indices@.len(),
                forall|k: int| 0 <= k < self.indices@.len() ==> #[trigger] self.indices@[k] < objectives@.len(),
                res@.len() == i,
                forall|k: int|
                    0 <= k < i ==> *res@[k] == objectives@[#[trigger] self.indices@[k] as int],
            decreases self.indices@.len() - i,
        {
            res.push(&objectives[self.indices[i]]);
            i = i + 1;
        }
        res
    }
}

} // verus!

verus! {

/// The sum over the first `n` dimensions of each value, counted positively
/// when maximizing and negatively when minimizing.
pub open spec fn score(a: Seq<u64>, dirs: Seq<bool>, n: int) -> int
    decreases n,
{
    if n <= 0 {
        0
    } else {
        score(a, dirs, n - 1) + if dirs[n - 1] {
            a[n - 1] as int
        } else {
            -(a[n - 1] as int)
        }
    }
}

proof fn lemma_score_monotone(a: Seq<u64>, b: Seq<u64>, dirs: Seq<bool>, n: int)
    requires
        0 <= n,
        forall|i: int| 0 <= i < n ==> !better_at(b, a, dirs, i),
    ensures
        score(a, dirs, n) >= score(b, dirs, n),
        (exists|i: int| 0 <= i < n && better_at(a, b, dirs, i)) ==> score(a, dirs, n) > score(
            b,
            dirs,
            n,
        ),
    decreases n,
{
    if n > 0 {
        lemma_score_monotone(a, b, dirs, n - 1);
        assert(!better_at(b, a, dirs, n - 1));
        if exists|i: int| 0 <= i < n && better_at(a, b, dirs, i) {
            let i = choose|i: int| 0 <= i < n && better_at(a, b, dirs, i);
            if i < n - 1 {
                assert(exists|k: int| 0 <= k < n - 1 && better_at(a, b, dirs, k));
            }
        }
    }
}

spec fn is_best(objs: Seq<Seq<u64>>, dirs: Seq<bool>, d: int, m: int, i: int) -> bool {
    0 <= i < m && forall|j: int|
        0 <= j < m ==> #[trigger] score(objs[j], dirs, d) <= score(objs[i], dirs, d)
}

proof fn lemma_best_score_exists(objs: Seq<Seq<u64>>, dirs: Seq<bool>, d: int, m: int)
    requires
        0 < m <= objs.len(),
    ensures
        exists|i: int| #[trigger] is_best(objs, dirs, d, m, i),
    decreases m,
{
    if m > 1 {
        lemma_best_score_exists(objs, dirs, d, m - 1);
        let i = choose|i: int| #[trigger] is_best(objs, dirs, d, m - 1, i);
        if score(objs[m - 1], dirs, d) > score(objs[i], dirs, d) {
            assert(is_best(objs, dirs, d, m, m - 1));
        } else {
            assert(is_best(objs, dirs, d, m, i));
        }
    } else {
        assert(is_best(objs, dirs, d, m, 0));
    }
}

/// When every vector has the same length and there is at least one, some
/// vector is dominated by no other: the front is never empty.
pub proof fn lemma_front_nonempty(objs: Seq<Seq<u64>>, dirs: Seq<bool>)
    requires
        0 < objs.len() <= usize::MAX,
        forall|i: int| 0 <= i < objs.len() ==> (#[trigger] objs[i]).len() == objs[0].len(),
        dirs.len() >= objs[0].len(),
    ensures
        front_of(objs, dirs).len() > 0,
{
    broadcast use vstd::seq_lib::group_filter_ensures;

    let d = objs[0].len() as int;
    lemma_best_score_exists(objs, dirs, d, objs.len() as int);
    let i = choose|i: int| #[trigger] is_best(objs, dirs, d, objs.len() as int, i);
    assert(!dominated_in(objs, dirs, i)) by {
        if dominated_in(objs, dirs, i) {
            let j = choose|j: int|
                0 <= j < objs.len() && j != i && dominates_spec(objs[j], objs[i], dirs);
            assert(objs[j].len() == d && objs[i].len() == d);
            lemma_score_monotone(objs[j], objs[i], dirs, d);
        }
    }
    let all = Seq::new(objs.len(), |k: int| k as usize);
    let keep = |k: usize| !dominated_in(objs, dirs, k as int);
    assert(all[i] == i as usize);
    assert(keep(all[i]));
    assert(all.filter(keep).contains(all[i]));
}

/// A vector on the front is dominated by no vector of the collection, and
/// every vector off the front is dominated by one.
pub proof fn lemma_front_exact(objs: Seq<Seq<u64>>, dirs: Seq<bool>, i: int)
    requires
        0 <= i < objs.len(),
        objs.len() <= usize::MAX,
    ensures
        front_of(objs, dirs).contains(i as usize) <==> !dominated_in(objs, dirs, i),
{
    broadcast use vstd::seq_lib::group_filter_ensures;

    let all = Seq::new(objs.len(), |k: int| k as usize);
    let keep = |k: usize| !dominated_in(objs, dirs, k as int);
    assert(all[i] == i as usize);
    if front_of(objs, dirs).contains(i as usize) {
        let k = choose|k: int| 0 <= k < all.filter(keep).len() && all.filter(keep)[k] == i as usize;
        assert(keep(all.filter(keep)[k]));
    }
}

} // verus!
