//! The integer decisions of population dynamics: who stays, and which two
//! players form a party.
use vstd::prelude::*;

verus! {

/// The items of `s` whose flag in `leaving` is not set, in order.
pub open spec fn staying<T>(s: Seq<T>, leaving: Seq<bool>) -> Seq<T>
    decreases s.len(),
{
    if s.len() == 0 {
        Seq::empty()
    } else {
        (if leaving[0] {
            Seq::empty()
        } else {
            seq![s[0]]
        }) + staying(s.drop_first(), leaving.drop_first())
    }
}

/// The positions whose flag in `leaving` is set, in increasing order,
/// counted from `from`.
pub open spec fn leaving_positions(leaving: Seq<bool>, from: int) -> Seq<usize>
    decreases leaving.len(),
{
    if leaving.len() == 0 {
        Seq::empty()
    } else {
        (if leaving[0] {
            seq![from as usize]
        } else {
            Seq::empty()
        }) + leaving_positions(leaving.drop_first(), from + 1)
    }
}

proof fn lemma_staying_split<T>(s: Seq<T>, leaving: Seq<bool>, i: int)
    requires
        0 <= i < s.len(),
        s.len() == leaving.len(),
    ensures
        staying(s.subrange(i, s.len() as int), leaving.subrange(i, leaving.len() as int)) == (if leaving[i] {
            Seq::empty()
        } else {
            seq![s[i]]
        }) + staying(s.subrange(i + 1, s.len() as int), leaving.subrange(i + 1, leaving.len() as int)),
        leaving_positions(leaving.subrange(i, leaving.len() as int), i) == (if leaving[i] {
            seq![i as usize]
        } else {
            Seq::empty()
        }) + leaving_positions(leaving.subrange(i + 1, leaving.len() as int), i + 1),
{
    let ss = s.subrange(i, s.len() as int);
    let ls = leaving.subrange(i, leaving.len() as int);
    assert(ss.drop_first() =~= s.subrange(i + 1, s.len() as int));
    assert(ls.drop_first() =~= leaving.subrange(i + 1, leaving.len() as int));
    assert(ss[0] == s[i]);
    assert(ls[0] == leaving[i]);
}

/// Removes the players flagged as leaving, from the last to the first, and
/// returns the positions they held: the population keeps the others in
/// order.
pub fn remove_leaving<T>(population: &mut Vec<T>, leaving: &[bool]) -> (gone: Vec<usize>)
    requires
        leaving@.len() == old(population)@.len(),
    ensures
        final(population)@ == staying(old(population)@, leaving@),
        gone@ == leaving_positions(leaving@, 0),
{
    let n = population.len();
    let ghost start = population@;
    let mut i: usize = n;
    let mut gone_rev: Vec<usize> = Vec::new();
    proof {
        assert(start.subrange(n as int, n as int) =~= Seq::<T>::empty());
        assert(population@ =~= start.subrange(0, n as int) + staying(
            start.subrange(n as int, n as int),
            leaving@.subrange(n as int, n as int),
        ));
    }
    while i > 0
        invariant
            i <= n,
            n == start.len(),
            n == leaving@.len(),
            population@ == start.subrange(0, i as int) + staying(
                start.subrange(i as int, n as int),
                leaving@.subrange(i as int, n as int),
            ),
            gone_rev@.reverse() == leaving_positions(leaving@.subrange(i as int, n as int), i as int),
        decreases i,
    {
        i = i - 1;
        proof {
            lemma_staying_split(start, leaving@, i as int);
        }
        let ghost before = population@;
        let ghost gone_before = gone_rev@;
        if leaving[i] {
            population.remove(i);
            gone_rev.push(i);
            proof {
                assert(population@ =~= start.subrange(0, i as int) + staying(
                    start.subrange(i as int, n as int),
                    leaving@.subrange(i as int, n as int),
                ));
                assert(gone_rev@.reverse() =~= seq![i] + gone_before.reverse());
            }
        } else {
            proof {
                assert(population@ =~= start.subrange(0, i as int) + staying(
                    start.subrange(i as int, n as int),
                    leaving@.subrange(i as int, n as int),
                ));
            }
        }
    }
    proof {
        assert(start.subrange(0, n as int) =~= start);
        assert(leaving@.subrange(0, n as int) =~= leaving@);
        assert(start.subrange(0, 0) =~= Seq::<T>::empty());
        assert(population@ =~= staying(start, leaving@));
    }
    let mut gone: Vec<usize> = Vec::new();
    let mut k: usize = gone_rev.len();
    while k > 0
        invariant
            k <= gone_rev@.len(),
            gone@ == gone_rev@.reverse().subrange(0, gone_rev@.len() - k),
        decreases k,
    {
        k = k - 1;
        gone.push(gone_rev[k]);
        proof {
            assert(gone@ =~= gone_rev@.reverse().subrange(0, gone_rev@.len() - k));
        }
    }
    proof {
        assert(gone_rev@.reverse().subrange(0, gone_rev@.len() as int) =~= gone_rev@.reverse());
    }
    gone
}

/// The two players who form a party from two random draws: the first is
/// `r1` reduced modulo the population, the second `r2` reduced likewise,
/// moved on by one when it falls on the first. They always differ.
pub fn party_pair(r1: u64, r2: u64, n: usize) -> (pair: (usize, usize))
    requires
        n >= 2,
    ensures
        pair.0 == (r1 as int) % (n as int),
        pair.1 == if (r2 as int) % (n as int) == (r1 as int) % (n as int) {
            ((r2 as int) % (n as int) + 1) % (n as int)
        } else {
            (r2 as int) % (n as int)
        },
        pair.0 < n && pair.1 < n && pair.0 != pair.1,
{
    let m = n as u64;
    let i = (r1 % m) as usize;
    let mut j = (r2 % m) as usize;
    if j == i {
        proof {
            if i + 1 < n {
                vstd::arithmetic::div_mod::lemma_small_mod((i + 1) as nat, n as nat);
            } else {
                vstd::arithmetic::div_mod::lemma_mod_self_0(n as int);
            }
        }
        j = (j + 1) % n;
    }
    (i, j)
}

} // verus!
