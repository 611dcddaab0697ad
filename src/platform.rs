//! The platform: its elements and the power they draw.
use vstd::prelude::*;

use crate::element::Element;
use crate::job::Job;
use crate::profile::{Profile, ProfileBuilder};
use crate::result::Error;
use crate::schedule::Mapping;

verus! {

/// A multiprocessor platform producing power profiles.
///
/// Each element draws its leakage power at all times, and the dynamic power
/// of the jobs mapped onto it while they run.
pub struct Platform {
    elements: Vec<Element>,
    power: ProfileBuilder,
}

/// Whether `steps` is a run of pushes, one per pair of `mapping`, that
/// takes the grid from its first state to its last: the pair `(i, j)` pushes
/// the dynamic power of the workload element `i` of `job`, from `start` on,
/// onto the platform element `j`.
pub open spec fn pushes(steps: Seq<ProfileBuilder>, job: Job, start: int, mapping: Seq<(usize, usize)>) -> bool {
    &&& steps.len() == mapping.len() + 1
    &&& forall|k: int|
        0 <= k < mapping.len() ==> ProfileBuilder::pushed_onto(
            #[trigger] steps[k],
            steps[k + 1],
            mapping[k].1 as int,
            start,
            job.pattern.0.time_step as int,
            job.pattern.0.elements@[mapping[k].0 as int].dynamic_power@,
        )
}

/// Whether `steps` is a run of pushes, one per pair of `mapping` before the
/// pair `k`, that the pair `k` cannot follow: it names a workload element or
/// a platform element out of range (of `count` elements), the pattern's time
/// step is zero, the start lies before the grid, or the push would not fit
/// the machine's integers.
pub open spec fn refused(steps: Seq<ProfileBuilder>, job: Job, start: int, mapping: Seq<(usize, usize)>, k: int, count: int) -> bool {
    let pattern = *job.pattern.0;
    let (i, j) = mapping[k];
    &&& 0 <= k < mapping.len()
    &&& steps.len() == k + 1
    &&& forall|m: int|
        0 <= m < k ==> ProfileBuilder::pushed_onto(
            #[trigger] steps[m],
            steps[m + 1],
            mapping[m].1 as int,
            start,
            pattern.time_step as int,
            pattern.elements@[mapping[m].0 as int].dynamic_power@,
        )
    &&& (i >= pattern.elements@.len() || j >= count || pattern.time_step == 0 || start
        < steps[k].spec_profile().time || !steps[k].push_fits(
        j as int,
        start,
        pattern.time_step as int,
        pattern.elements@[i as int].dynamic_power@,
    ))
}

impl Platform {
    /// The processing elements.
    pub closed spec fn spec_elements(&self) -> Seq<Element> {
        self.elements@
    }

    /// The power grid.
    pub closed spec fn spec_power(&self) -> ProfileBuilder {
        self.power
    }

    /// The invariant: elements numbered by position, one power column each.
    pub open spec fn wf(&self) -> bool {
        &&& self.spec_power().wf()
        &&& self.spec_power().spec_profile().element_count == self.spec_elements().len()
        &&& forall|i: int| 0 <= i < self.spec_elements().len() ==> (#[trigger] self.spec_elements()[i]).id == i
    }

    /// Create a platform whose power grid has the step `time_step` and whose
    /// elements draw `leakage_power` each; every new row of the grid holds
    /// each element's leakage power times the step. An energy per step past
    /// `u64` is refused.
    pub fn new(elements: Vec<Element>, time_step: u64, leakage_power: Vec<u64>) -> (r: Result<Platform, Error>)
        requires
            time_step > 0,
            leakage_power@.len() == elements@.len(),
            forall|i: int| 0 <= i < elements@.len() ==> (#[trigger] elements@[i]).id == i,
        ensures
            match r {
                Ok(p) => {
                    &&& p.wf()
                    &&& p.spec_elements() == elements@
                    &&& p.spec_power().spec_profile().step_count == 0
                    &&& p.spec_power().spec_profile().time == 0
                    &&& p.spec_power().spec_profile().time_step == time_step
                    &&& forall|i: int|
                        0 <= i < elements@.len() ==> #[trigger] p.spec_power().spec_fill()[i] == leakage_power@[i]
                            * time_step
                },
                Err(_) => exists|i: int|
                    0 <= i < elements@.len() && #[trigger] leakage_power@[i] * time_step > u64::MAX,
            },
    {
        let n = elements.len();
        let mut fill: Vec<u64> = Vec::new();
        let mut i: usize = 0;
        while i < n
            invariant
                n == elements@.len(),
                n == leakage_power@.len(),
                time_step > 0,
                0 <= i <= n,
                fill@.len() == i,
                forall|k: int| 0 <= k < i ==> #[trigger] fill@[k] == leakage_power@[k] * time_step,
            decreases n - i,
        {
            if leakage_power[i] > u64::MAX / time_step {
                proof {
                    assert(leakage_power@[i as int] * time_step > u64::MAX) by (nonlinear_arith)
                        requires
                            leakage_power@[i as int] > u64::MAX / time_step,
                            time_step > 0,
                    ;
                }
                return Err(Error::new("the leakage energy of a step is too large"));
            }
            proof {
                assert(leakage_power@[i as int] * time_step <= u64::MAX) by (nonlinear_arith)
                    requires
                        leakage_power@[i as int] <= u64::MAX / time_step,
                        time_step > 0,
                ;
            }
            fill.push(leakage_power[i] * time_step);
            i += 1;
        }
        let power = ProfileBuilder::new(n, time_step, fill);
        Ok(Platform { elements, power })
    }

    /// Return the processing elements.
    pub fn elements(&self) -> (r: &Vec<Element>)
        ensures
            r@ == self.spec_elements(),
    {
        &self.elements
    }

    /// Return the power grid.
    pub fn power(&self) -> (r: &ProfileBuilder)
        ensures
            *r == self.spec_power(),
    {
        &self.power
    }

    /// Account for a job that starts at `start` with `mapping`: the dynamic
    /// power of each workload element is pushed onto the platform element
    /// that it is mapped to, on top of what is there.
    ///
    /// A start before the grid, an element out of range, or a push past the
    /// machine's integers is refused.
    pub fn push(&mut self, job: &Job, start: u64, mapping: &Mapping) -> (r: Result<(), Error>)
        requires
            old(self).wf(),
        ensures
            final(self).wf(),
            final(self).spec_elements() == old(self).spec_elements(),
            final(self).spec_power().spec_profile().time == old(self).spec_power().spec_profile().time,
            r is Ok ==> exists|steps: Seq<ProfileBuilder>|
                #[trigger] pushes(steps, *job, start as int, mapping@) && steps[0] == old(self).spec_power()
                    && steps.last() == final(self).spec_power(),
            r is Err ==> exists|steps: Seq<ProfileBuilder>, k: int|
                #[trigger] refused(steps, *job, start as int, mapping@, k, old(self).spec_elements().len() as int)
                    && steps[0] == old(self).spec_power(),
    {
        let ghost steps: Seq<ProfileBuilder> = seq![self.power];
        let pattern = &job.pattern.0;
        let n = self.elements.len();
        let mut k: usize = 0;
        while k < mapping.len()
            invariant
                self.wf(),
                self.spec_elements() == old(self).spec_elements(),
                n == self.spec_elements().len(),
                pattern == job.pattern.0,
                0 <= k <= mapping@.len(),
                steps.len() == k + 1,
                steps[0] == old(self).spec_power(),
                steps.last() == self.spec_power(),
                self.spec_power().spec_profile().time == old(self).spec_power().spec_profile().time,
                forall|m: int|
                    0 <= m < k ==> ProfileBuilder::pushed_onto(
                        #[trigger] steps[m],
                        steps[m + 1],
                        mapping@[m].1 as int,
                        start as int,
                        job.pattern.0.time_step as int,
                        job.pattern.0.elements@[mapping@[m].0 as int].dynamic_power@,
                    ),
            decreases mapping@.len() - k,
        {
            let (i, j) = mapping[k];
            if i >= pattern.elements.len() || j >= n || pattern.time_step == 0 || start < self.power.profile().time {
                proof {
                    assert(refused(steps, *job, start as int, mapping@, k as int, n as int));
                }
                return Err(Error::new("found an invalid mapping"));
            }
            let id = self.elements[j].id;
            let values = pattern.elements[i].dynamic_power.as_slice();
            if !self.power.fits(id, start, pattern.time_step, values) {
                proof {
                    assert(refused(steps, *job, start as int, mapping@, k as int, n as int));
                }
                return Err(Error::new("the power of a processing element is too large"));
            }
            self.power.push(id, start, pattern.time_step, values);
            proof {
                steps = steps.push(self.power);
            }
            k += 1;
        }
        proof {
            assert(pushes(steps, *job, start as int, mapping@));
        }
        Ok(())
    }

    /// Advance time and return the power profile of the whole steps since
    /// the previous call; a time before the grid, or a profile too large for
    /// memory, is refused.
    pub fn next(&mut self, time: u64) -> (r: Result<Profile, Error>)
        requires
            old(self).wf(),
        ensures
            final(self).wf(),
            final(self).spec_elements() == old(self).spec_elements(),
            match r {
                Ok(p) => ProfileBuilder::pulled(old(self).spec_power(), final(self).spec_power(), time as int, p),
                Err(_) => *final(self) == *old(self) && !pull_fits(old(self).spec_power(), time as int),
            },
    {
        let grid = self.power.profile();
        if time < grid.time {
            return Err(Error::new("time cannot go backwards"));
        }
        let rows = (time - grid.time) / grid.time_step;
        let n = grid.element_count;
        if rows > usize::MAX as u64 || (n > 0 && rows > (usize::MAX / n) as u64) {
            proof {
                if n > 0 && rows <= usize::MAX as u64 {
                    assert(rows * n > usize::MAX) by (nonlinear_arith)
                        requires
                            rows > usize::MAX as int / n as int,
                            n > 0,
                    ;
                }
            }
            return Err(Error::new("the profile is too large"));
        }
        proof {
            if n > 0 {
                assert(rows * n <= usize::MAX) by (nonlinear_arith)
                    requires
                        rows <= usize::MAX as int / n as int,
                        n > 0,
                ;
            } else {
                assert(rows * n == 0) by (nonlinear_arith)
                    requires
                        n == 0,
                ;
            }
        }
        Ok(self.power.pull(time))
    }
}

/// Whether the grid can be advanced to `time`: not backwards, and with
/// the profile before `time` small enough to be held in memory.
pub open spec fn pull_fits(power: ProfileBuilder, time: int) -> bool {
    &&& power.spec_profile().time <= time
    &&& power.rows_until(time) <= usize::MAX
    &&& power.rows_until(time) * power.spec_profile().element_count <= usize::MAX
}

} // verus!
