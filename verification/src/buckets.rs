//! Splitting sample times into a fixed number of equal-width buckets.
use vstd::prelude::*;

verus! {

/// The number of time buckets a run's samples are split into.
pub const TIME_BUCKETS: usize = 20;

/// The width of each bucket when the last sample falls at `end`: `end`
/// divided by the number of buckets, rounded up (1 when `end` is 0).
pub open spec fn width_for(end: u64) -> int {
    if end == 0 {
        1
    } else {
        (end + TIME_BUCKETS - 1) / (TIME_BUCKETS as int)
    }
}

/// The bucket of a sample at `tick`: its tick divided by the width, the
/// last bucket taking everything beyond.
pub open spec fn bucket_of(tick: u64, width: int) -> int {
    if (tick as int) / width < TIME_BUCKETS {
        (tick as int) / width
    } else {
        TIME_BUCKETS - 1
    }
}

/// The largest of `ticks` (0 when there is none).
pub open spec fn last_tick(ticks: Seq<u64>) -> u64
    decreases ticks.len(),
{
    if ticks.len() == 0 {
        0
    } else if last_tick(ticks.drop_last()) >= ticks.last() {
        last_tick(ticks.drop_last())
    } else {
        ticks.last()
    }
}

/// The bucket width for samples that end at `end`.
pub fn bucket_width(end: u64) -> (w: u64)
    ensures
        w == width_for(end),
        w >= 1,
{
    if end == 0 {
        1
    } else {
        let q = end / 20;
        let r = end % 20;
        if r == 0 {
            q
        } else {
            q + 1
        }
    }
}

/// The bucket of a sample at `tick`.
pub fn bucket_index(tick: u64, width: u64) -> (b: usize)
    requires
        width >= 1,
    ensures
        b == bucket_of(tick, width as int),
        b < TIME_BUCKETS,
{
    let q = tick / width;
    if q < 20 {
        q as usize
    } else {
        19
    }
}

/// The largest tick.
pub fn last_of(ticks: &[u64]) -> (m: u64)
    ensures
        m == last_tick(ticks@),
        forall|i: int| 0 <= i < ticks@.len() ==> ticks@[i] <= m,
{
    let mut m: u64 = 0;
    let mut i: usize = 0;
    while i < ticks.len()
        invariant
            i <= ticks@.len(),
            m == last_tick(ticks@.subrange(0, i as int)),
            forall|k: int| 0 <= k < i ==> ticks@[k] <= m,
        decreases ticks@.len() - i,
    {
        proof {
            assert(ticks@.subrange(0, i as int + 1).drop_last() =~= ticks@.subrange(0, i as int));
            assert(ticks@.subrange(0, i as int + 1).last() == ticks@[i as int]);
        }
        if ticks[i] > m {
            m = ticks[i];
        }
        i = i + 1;
    }
    assert(ticks@.subrange(0, ticks@.len() as int) =~= ticks@);
    m
}

/// The bucket of every sample, the width fixed by the last one; none when
/// there are no samples.
pub fn bucket_assignment(ticks: &[u64]) -> (res: Option<Vec<usize>>)
    ensures
        ticks@.len() == 0 ==> res is None,
        ticks@.len() > 0 ==> (res matches Some(b) && b@.len() == ticks@.len() && forall|i: int|
            0 <= i < ticks@.len() ==> #[trigger] b@[i] == bucket_of(ticks@[i], width_for(last_tick(ticks@)))),
{
    if ticks.len() == 0 {
        return None;
    }
    let end = last_of(ticks);
    let width = bucket_width(end);
    let mut b: Vec<usize> = Vec::new();
    let mut i: usize = 0;
    while i < ticks.len()
        invariant
            i <= ticks@.len(),
            width == width_for(last_tick(ticks@)),
            width >= 1,
            b@.len() == i,
            forall|k: int| 0 <= k < i ==> #[trigger] b@[k] == bucket_of(ticks@[k], width as int),
        decreases ticks@.len() - i,
    {
        b.push(bucket_index(ticks[i], width));
        i = i + 1;
    }
    Some(b)
}

/// Later samples never fall in earlier buckets, and every sample falls in
/// one of the buckets.
pub proof fn lemma_buckets_ordered(t1: u64, t2: u64, width: int)
    requires
        width >= 1,
        t1 <= t2,
    ensures
        0 <= bucket_of(t1, width) <= bucket_of(t2, width) < TIME_BUCKETS,
{
    vstd::arithmetic::div_mod::lemma_div_is_ordered(t1 as int, t2 as int, width);
    assert((t1 as int) / width >= 0) by (nonlinear_arith)
        requires
            width >= 1,
            t1 >= 0,
    ;
}

} // verus!
