//! Arrival streams.
use std::collections::VecDeque;

use vstd::prelude::*;

use crate::result::Error;
use crate::time::TIME_LIMIT;

verus! {

/// The integer part of the binary logarithm of `n`, taken as zero below two.
pub open spec fn log2_floor(n: nat) -> nat
    decreases n,
{
    if n < 2 {
        0
    } else {
        1 + log2_floor(n / 2)
    }
}

/// Choose the number of coarse scales of a multifractal wavelet model
/// fitted to `count` interarrivals: the integer part of the binary logarithm
/// of the count, which must be at least one.
pub fn coarse_scales(count: usize) -> (r: Result<usize, Error>)
    ensures
        match r {
            Ok(n) => n == log2_floor(count as nat) && n >= 1,
            Err(_) => log2_floor(count as nat) < 1,
        },
{
    if count == 0 {
        return Err(Error::new("there are no data"));
    }
    let mut rest = count;
    let mut scales: usize = 0;
    while rest >= 2
        invariant
            1 <= rest <= count,
            scales + log2_floor(rest as nat) == log2_floor(count as nat),
            scales + rest <= count,
        decreases rest,
    {
        proof {
            assert(rest / 2 >= 1);
        }
        rest = rest / 2;
        scales = scales + 1;
    }
    if scales < 1 {
        return Err(Error::new("there are not enough data"));
    }
    Ok(scales)
}

/// Cumulative times: each step added to the time before it, from `time` on.
pub open spec fn cumulative(time: int, steps: Seq<u64>) -> Seq<u64>
    decreases steps.len(),
{
    if steps.len() == 0 {
        Seq::empty()
    } else {
        let rest = cumulative(time, steps.drop_last());
        rest.push((time + total_steps(steps)) as u64)
    }
}

/// The sum of the steps.
pub open spec fn total_steps(steps: Seq<u64>) -> int
    decreases steps.len(),
{
    if steps.len() == 0 {
        0
    } else {
        total_steps(steps.drop_last()) + steps.last()
    }
}

/// A stream of arrival times, refilled in bursts of interarrival times.
pub struct Traffic {
    time: u64,
    arrivals: VecDeque<u64>,
}

impl View for Traffic {
    type V = Seq<u64>;

    /// The arrivals not yet taken, in order.
    closed spec fn view(&self) -> Seq<u64> {
        self.arrivals@
    }
}

impl Traffic {
    /// The time of the last arrival generated so far.
    pub closed spec fn spec_time(&self) -> u64 {
        self.time
    }

    /// The invariant: arrivals in order, none after the last generated.
    pub open spec fn wf(&self) -> bool {
        &&& self.spec_time() <= TIME_LIMIT
        &&& forall|i: int, j: int| 0 <= i <= j < self@.len() ==> self@[i] <= self@[j]
        &&& forall|i: int| 0 <= i < self@.len() ==> #[trigger] self@[i] <= self.spec_time()
    }

    /// Create an empty stream at time zero.
    pub fn new() -> (r: Traffic)
        ensures
            r.wf(),
            r@ == Seq::<u64>::empty(),
            r.spec_time() == 0,
    {
        Traffic { time: 0, arrivals: VecDeque::new() }
    }

    /// Append a burst: each interarrival time is added to the time of the
    /// last arrival. A burst that goes past the time limit is refused, and
    /// the stream is then left as it was.
    pub fn refill(&mut self, steps: &[u64]) -> (r: Result<(), Error>)
        requires
            old(self).wf(),
        ensures
            final(self).wf(),
            match r {
                Ok(()) => {
                    &&& final(self)@ == old(self)@ + cumulative(old(self).spec_time() as int, steps@)
                    &&& final(self).spec_time() == old(self).spec_time() + total_steps(steps@)
                },
                Err(_) => *final(self) == *old(self) && old(self).spec_time() + total_steps(steps@) > TIME_LIMIT,
            },
    {
        let mut sum: u64 = 0;
        let mut i: usize = 0;
        while i < steps.len()
            invariant
                self.wf(),
                0 <= i <= steps@.len(),
                sum == total_steps(steps@.subrange(0, i as int)),
                self.spec_time() + sum <= TIME_LIMIT,
            decreases steps@.len() - i,
        {
            proof {
                assert(steps@.subrange(0, i + 1).drop_last() =~= steps@.subrange(0, i as int));
            }
            if steps[i] > TIME_LIMIT - self.time - sum {
                proof {
                    lemma_total_prefix_le(steps@, i + 1);
                }
                return Err(Error::new("the time limit has been reached"));
            }
            sum = sum + steps[i];
            i += 1;
        }
        proof {
            assert(steps@.subrange(0, steps@.len() as int) =~= steps@);
        }
        let ghost start = self.time as int;
        let mut i: usize = 0;
        while i < steps.len()
            invariant
                self.wf(),
                0 <= i <= steps@.len(),
                start == old(self).spec_time(),
                self.spec_time() == start + total_steps(steps@.subrange(0, i as int)),
                start + total_steps(steps@) <= TIME_LIMIT,
                self@ == old(self)@ + cumulative(start, steps@.subrange(0, i as int)),
                forall|k: int| 0 <= k < old(self)@.len() ==> #[trigger] old(self)@[k] <= start,
                forall|a: int, b: int| 0 <= a <= b < old(self)@.len() ==> old(self)@[a] <= old(self)@[b],
            decreases steps@.len() - i,
        {
            proof {
                assert(steps@.subrange(0, i + 1).drop_last() =~= steps@.subrange(0, i as int));
                assert(steps@.subrange(0, steps@.len() as int) =~= steps@);
                lemma_total_prefix_le(steps@, i + 1);
            }
            self.time = self.time + steps[i];
            self.arrivals.push_back(self.time);
            proof {
                assert(self@ =~= old(self)@ + cumulative(start, steps@.subrange(0, i + 1)));
            }
            i += 1;
        }
        proof {
            assert(steps@.subrange(0, steps@.len() as int) =~= steps@);
        }
        Ok(())
    }

    /// Return the next arrival time, if any.
    pub fn next(&mut self) -> (r: Option<u64>)
        requires
            old(self).wf(),
        ensures
            final(self).wf(),
            final(self).spec_time() == old(self).spec_time(),
            old(self)@.len() == 0 ==> r is None && final(self)@ == old(self)@,
            old(self)@.len() > 0 ==> r == Some(old(self)@[0]) && final(self)@ == old(self)@.drop_first(),
    {
        self.arrivals.pop_front()
    }

    /// Peek at the next arrival time, if any.
    pub fn peek(&self) -> (r: Option<u64>)
        ensures
            self@.len() == 0 ==> r is None,
            self@.len() > 0 ==> r == Some(self@[0]),
    {
        if self.arrivals.len() == 0 {
            None
        } else {
            Some(self.arrivals[0])
        }
    }

    /// Return the time of the last arrival generated so far.
    pub fn time(&self) -> (r: u64)
        ensures
            r == self.spec_time(),
    {
        self.time
    }
}

/// Cumulative times from `time` on never fall below it.
pub proof fn lemma_cumulative_after(time: int, steps: Seq<u64>)
    requires
        0 <= time,
        time + total_steps(steps) <= u64::MAX,
    ensures
        forall|i: int| 0 <= i < cumulative(time, steps).len() ==> time <= #[trigger] cumulative(time, steps)[i],
        cumulative(time, steps).len() == steps.len(),
    decreases steps.len(),
{
    if steps.len() > 0 {
        lemma_total_nonneg(steps.drop_last());
        lemma_cumulative_after(time, steps.drop_last());
    }
}

/// The steps of a prefix sum to no more than all of them.
proof fn lemma_total_prefix_le(steps: Seq<u64>, k: int)
    requires
        0 <= k <= steps.len(),
    ensures
        0 <= total_steps(steps.subrange(0, k)) <= total_steps(steps),
    decreases steps.len() - k,
{
    if k < steps.len() {
        lemma_total_prefix_le(steps, k + 1);
        assert(steps.subrange(0, k + 1).drop_last() =~= steps.subrange(0, k));
    } else {
        assert(steps.subrange(0, k) =~= steps);
    }
    lemma_total_nonneg(steps.subrange(0, k));
}

/// A sum of steps is never negative.
pub proof fn lemma_total_nonneg(steps: Seq<u64>)
    ensures
        0 <= total_steps(steps),
    decreases steps.len(),
{
    if steps.len() > 0 {
        lemma_total_nonneg(steps.drop_last());
    }
}

} // verus!
