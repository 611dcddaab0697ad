//! The system: arrivals, scheduling and power, driven event by event.
use vstd::prelude::*;

use crate::job::{Job, ID};
use crate::platform::{pull_fits, Platform};
use crate::profile::{Profile, ProfileBuilder};
use crate::result::Error;
use crate::schedule::{enough, Decision, Impartial, Mapping, NoData};
use crate::traffic::Traffic;
use crate::workload::Random;

verus! {

/// The type of an event.
#[derive(Clone, Copy, Debug, PartialEq, Eq, Structural)]
pub enum Kind {
    /// A job has arrived.
    Arrival,
    /// A job has started.
    Start,
    /// A job has finished.
    Finish,
}

/// An event in the life of a job.
#[derive(Debug)]
pub struct Event {
    /// The time.
    pub time: u64,
    /// The type.
    pub kind: Kind,
    /// The job.
    pub job: Job,
    /// Where the job runs; empty for an arrival.
    pub mapping: Mapping,
}

impl Event {
    /// Create a job-arrival event.
    pub fn arrival(time: u64, job: Job) -> (r: Event)
        ensures
            r.time == time,
            r.kind == Kind::Arrival,
            r.job == job,
            r.mapping@.len() == 0,
    {
        Event { time, kind: Kind::Arrival, job, mapping: Vec::new() }
    }

    /// Create a job-start event.
    pub fn start(time: u64, job: Job, mapping: Mapping) -> (r: Event)
        ensures
            r == (Event { time, kind: Kind::Start, job, mapping }),
    {
        Event { time, kind: Kind::Start, job, mapping }
    }

    /// Create a job-finish event.
    pub fn finish(time: u64, job: Job, mapping: Mapping) -> (r: Event)
        ensures
            r == (Event { time, kind: Kind::Finish, job, mapping }),
    {
        Event { time, kind: Kind::Finish, job, mapping }
    }
}

/// Statistics about a system: how many events of each type it has emitted.
#[derive(Clone, Copy, Debug, PartialEq, Eq, Structural)]
pub struct History {
    /// The number of arrived jobs.
    pub arrived: usize,
    /// The number of started jobs.
    pub started: usize,
    /// The number of finished jobs.
    pub finished: usize,
}

impl History {
    /// Nothing emitted yet.
    pub fn new() -> (r: History)
        ensures
            r == (History { arrived: 0, started: 0, finished: 0 }),
    {
        History { arrived: 0, started: 0, finished: 0 }
    }

    /// The counters once an event of the type `kind` is taken into account.
    pub open spec fn after(self, kind: Kind) -> History {
        match kind {
            Kind::Arrival => History { arrived: (self.arrived + 1) as usize, ..self },
            Kind::Start => History { started: (self.started + 1) as usize, ..self },
            Kind::Finish => History { finished: (self.finished + 1) as usize, ..self },
        }
    }

    /// Whether one more event of any type can be counted.
    pub open spec fn has_room(self) -> bool {
        &&& self.arrived < usize::MAX
        &&& self.started < usize::MAX
        &&& self.finished < usize::MAX
    }

    /// Whether one more event of any type can be counted.
    pub fn has_room_exec(&self) -> (r: bool)
        ensures
            r == self.has_room(),
    {
        self.arrived < usize::MAX && self.started < usize::MAX && self.finished < usize::MAX
    }

    /// Take into account an event.
    pub fn count(&mut self, event: &Event)
        requires
            old(self).has_room(),
        ensures
            *final(self) == old(self).after(event.kind),
    {
        match event.kind {
            Kind::Arrival => self.arrived = self.arrived + 1,
            Kind::Start => self.started = self.started + 1,
            Kind::Finish => self.finished = self.finished + 1,
        }
    }
}

/// The number of events of the type `kind` in `kinds`.
pub open spec fn occurrences(kinds: Seq<Kind>, kind: Kind) -> nat
    decreases kinds.len(),
{
    if kinds.len() == 0 {
        0
    } else {
        occurrences(kinds.drop_last(), kind) + if kinds.last() == kind {
            1nat
        } else {
            0nat
        }
    }
}

/// Whether the queued event `k` is the finish that belongs to the queued
/// start `i`: of the same job, one job duration later.
pub open spec fn finishes(queue: Seq<Event>, i: int, k: int) -> bool {
    &&& 0 <= k < queue.len()
    &&& queue[k].kind == Kind::Finish
    &&& queue[k].job.id == queue[i].job.id
    &&& queue[k].time == queue[i].time + queue[i].job.pattern.spec_duration()
}

/// Whether the queued events follow their jobs: each comes after its job's
/// arrival, and each queued start has its finish queued one job duration
/// later.
pub open spec fn paired(queue: Seq<Event>) -> bool {
    &&& forall|i: int| 0 <= i < queue.len() ==> (#[trigger] queue[i]).job.pattern.wf()
    &&& forall|i: int| 0 <= i < queue.len() ==> (#[trigger] queue[i]).job.arrival < queue[i].time
    &&& forall|i: int|
        0 <= i < queue.len() && (#[trigger] queue[i]).kind == Kind::Start ==> exists|k: int| #[trigger] finishes(queue, i, k)
}

/// Taking out the earliest event keeps the queue paired.
proof fn lemma_paired_remove(queue: Seq<Event>, k: int)
    requires
        paired(queue),
        is_earliest(queue, k),
    ensures
        paired(queue.remove(k)),
{
    let rest = queue.remove(k);
    assert forall|i: int| 0 <= i < rest.len() && (#[trigger] rest[i]).kind == Kind::Start implies exists|m: int|
        #[trigger] finishes(rest, i, m) by {
        let io = if i < k { i } else { i + 1 };
        assert(rest[i] == queue[io]);
        let mo = choose|m: int| #[trigger] finishes(queue, io, m);
        let c = *queue[io].job.pattern.0;
        assert(c.step_count * c.time_step > 0) by (nonlinear_arith)
            requires
                c.step_count >= 1,
                c.time_step > 0,
        ;
        if mo == k {
            assert(queue[k].time <= queue[io].time);
        }
        let m = if mo < k { mo } else { mo - 1 };
        assert(rest[m] == queue[mo]);
        assert(finishes(rest, i, m));
    }
    assert forall|i: int| 0 <= i < rest.len() implies (#[trigger] rest[i]).job.pattern.wf() by {
        let io = if i < k { i } else { i + 1 };
        assert(rest[i] == queue[io]);
    }
    assert forall|i: int| 0 <= i < rest.len() implies (#[trigger] rest[i]).job.arrival < rest[i].time by {
        let io = if i < k { i } else { i + 1 };
        assert(rest[i] == queue[io]);
    }
}

/// Appending a start and its finish keeps the queue paired.
proof fn lemma_paired_append(queue: Seq<Event>, start: Event, finish: Event)
    requires
        paired(queue),
        start.kind == Kind::Start,
        finish.kind == Kind::Finish,
        start.job == finish.job,
        start.job.pattern.wf(),
        start.job.arrival < start.time,
        finish.time == start.time + start.job.pattern.spec_duration(),
        start.job.pattern.spec_duration() > 0,
    ensures
        paired(queue.push(start).push(finish)),
{
    let q = queue.push(start).push(finish);
    let n = queue.len() as int;
    assert(q[n] == start && q[n + 1] == finish);
    assert(finishes(q, n, n + 1));
    assert forall|i: int| 0 <= i < q.len() && (#[trigger] q[i]).kind == Kind::Start implies exists|m: int|
        #[trigger] finishes(q, i, m) by {
        if i < n {
            assert(q[i] == queue[i]);
            let m = choose|m: int| #[trigger] finishes(queue, i, m);
            assert(q[m] == queue[m]);
            assert(finishes(q, i, m));
        } else if i == n {
            assert(finishes(q, n, n + 1));
        }
    }
    assert forall|i: int| 0 <= i < q.len() implies (#[trigger] q[i]).job.pattern.wf() by {
        if i < n {
            assert(q[i] == queue[i]);
        }
    }
    assert forall|i: int| 0 <= i < q.len() implies (#[trigger] q[i]).job.arrival < q[i].time by {
        if i < n {
            assert(q[i] == queue[i]);
        }
    }
}

/// Whether two events are of the same type and the same job.
pub open spec fn same_turn(a: Event, b: Event) -> bool {
    a.kind == b.kind && a.job.id == b.job.id
}

/// The index of the earliest event of `events`, the first one among equals.
pub open spec fn is_earliest(events: Seq<Event>, k: int) -> bool {
    &&& 0 <= k < events.len()
    &&& forall|i: int| 0 <= i < events.len() ==> events[k].time <= #[trigger] events[i].time
    &&& forall|i: int| 0 <= i < k ==> events[k].time < #[trigger] events[i].time
}

/// A system: arrivals, a workload catalog, a platform, a scheduling policy,
/// the events that lie ahead, and statistics.
pub struct System {
    traffic: Traffic,
    workload: Random,
    platform: Platform,
    schedule: Impartial,
    history: History,
    queue: Vec<Event>,
    last: u64,
}

/// Whether `after` is `before` once it emitted `event` with the power
/// profile `power` since the previous event, a new job taking the pattern at
/// `choice`.
///
/// Events never go back in time; the statistics count the event; the
/// profile covers the whole steps from where the grid stood up to the event.
/// An arrival is the next arrival of the stream, at or before every queued
/// event; its job is numbered by the arrivals before it, and its start and
/// finish are queued, strictly after the arrival and strictly in that order.
/// Any other event is the earliest queued one, the first among equals, and
/// strictly before the next arrival; it leaves the queue.
pub open spec fn stepped(before: System, after: System, choice: int, event: Event, power: Profile) -> bool {
    let q0 = before.spec_queue();
    let q1 = after.spec_queue();
    let t0 = before.spec_traffic()@;
    &&& before.wf()
    &&& after.wf()
    &&& before.spec_history().has_room()
    &&& before.spec_last() <= event.time
    &&& after.spec_last() == event.time
    &&& after.spec_history() == before.spec_history().after(event.kind)
    &&& exists|grid: ProfileBuilder|
        ProfileBuilder::pulled(before.spec_platform().spec_power(), grid, event.time as int, power)
    &&& t0.len() > 0
    &&& event.kind == Kind::Arrival ==> {
        &&& event.time == t0[0]
        &&& after.spec_traffic()@ == t0.drop_first()
        &&& forall|i: int| 0 <= i < q0.len() ==> event.time <= #[trigger] q0[i].time
        &&& event.job.id == ID(before.spec_history().arrived)
        &&& event.job.arrival == event.time
        &&& event.job.pattern == before.spec_workload()@[choice]
        &&& q1.len() == q0.len() + 2
        &&& q1.subrange(0, q0.len() as int) == q0
        &&& q1[q0.len() as int].kind == Kind::Start
        &&& q1[q0.len() as int + 1].kind == Kind::Finish
        &&& q1[q0.len() as int].job == event.job
        &&& q1[q0.len() as int + 1].job == event.job
        &&& event.time < q1[q0.len() as int].time
        &&& q1[q0.len() as int].time < q1[q0.len() as int + 1].time
    }
    &&& event.kind != Kind::Arrival ==> {
        &&& after.spec_traffic()@ == t0
        &&& event.time < t0[0]
        &&& exists|k: int| #[trigger] is_earliest(q0, k) && event == q0[k] && q1 == q0.remove(k)
    }
}

/// Whether the next event of `system` is an arrival: one is known, and no
/// queued event comes before it.
pub open spec fn arrival_next(system: System) -> bool {
    &&& system.spec_traffic()@.len() > 0
    &&& forall|i: int|
        0 <= i < system.spec_queue().len() ==> system.spec_traffic()@[0] <= #[trigger] system.spec_queue()[i].time
}

impl System {
    /// The arrivals ahead.
    pub closed spec fn spec_traffic(&self) -> Traffic {
        self.traffic
    }

    /// The workload catalog.
    pub closed spec fn spec_workload(&self) -> Random {
        self.workload
    }

    /// The platform.
    pub closed spec fn spec_platform(&self) -> Platform {
        self.platform
    }

    /// The scheduling policy.
    pub closed spec fn spec_schedule(&self) -> Impartial {
        self.schedule
    }

    /// The statistics.
    pub closed spec fn spec_history(&self) -> History {
        self.history
    }

    /// The queued start and finish events.
    pub closed spec fn spec_queue(&self) -> Seq<Event> {
        self.queue@
    }

    /// The time of the last event emitted.
    pub closed spec fn spec_last(&self) -> u64 {
        self.last
    }

    /// The invariant: the parts are well formed and agree on the elements;
    /// nothing ahead lies before the last event, and the power grid does not
    /// start after it.
    pub open spec fn wf(&self) -> bool {
        let traffic = self.spec_traffic();
        &&& traffic.wf()
        &&& self.spec_platform().wf()
        &&& self.spec_schedule().wf()
        &&& self.spec_schedule().spec_elements() == self.spec_platform().spec_elements()
        &&& forall|i: int| 0 <= i < self.spec_workload()@.len() ==> (#[trigger] self.spec_workload()@[i]).wf()
        &&& self.spec_last() <= traffic.spec_time()
        &&& forall|i: int| 0 <= i < traffic@.len() ==> self.spec_last() <= #[trigger] traffic@[i]
        &&& forall|i: int| 0 <= i < self.spec_queue().len() ==> self.spec_last() <= #[trigger] self.spec_queue()[i].time
        &&& forall|i: int| 0 <= i < self.spec_queue().len() ==> (#[trigger] self.spec_queue()[i]).kind != Kind::Arrival
        &&& forall|i: int|
            0 <= i < self.spec_queue().len() ==> (#[trigger] self.spec_queue()[i]).job.id.0 < self.spec_history().arrived
        &&& forall|i: int, k: int|
            0 <= i < k < self.spec_queue().len() ==> !same_turn(#[trigger] self.spec_queue()[i], #[trigger] self.spec_queue()[k])
        &&& paired(self.spec_queue())
        &&& self.spec_platform().spec_power().spec_profile().time <= self.spec_last()
    }

    /// Create a system at time zero with nothing queued.
    pub fn new(traffic: Traffic, workload: Random, platform: Platform, schedule: Impartial) -> (r: Result<System, Error>)
        requires
            traffic.wf(),
            platform.wf(),
            schedule.wf(),
            schedule.spec_elements() == platform.spec_elements(),
            forall|i: int| 0 <= i < workload@.len() ==> (#[trigger] workload@[i]).wf(),
            platform.spec_power().spec_profile().time == 0,
        ensures
            r matches Ok(s) && s.wf() && s.spec_traffic() == traffic && s.spec_workload() == workload
                && s.spec_platform() == platform && s.spec_schedule() == schedule && s.spec_queue().len() == 0
                && s.spec_history() == (History { arrived: 0, started: 0, finished: 0 }) && s.spec_last() == 0,
    {
        Ok(System { traffic, workload, platform, schedule, history: History::new(), queue: Vec::new(), last: 0 })
    }

    /// Return the platform.
    pub fn platform(&self) -> (r: &Platform)
        ensures
            *r == self.spec_platform(),
    {
        &self.platform
    }

    /// Return the history.
    pub fn history(&self) -> (r: &History)
        ensures
            *r == self.spec_history(),
    {
        &self.history
    }

    /// Return the arrivals ahead.
    pub fn traffic(&self) -> (r: &Traffic)
        ensures
            *r == self.spec_traffic(),
    {
        &self.traffic
    }

    /// Append a burst of interarrival times to the arrivals ahead.
    pub fn refill(&mut self, steps: &[u64]) -> (r: Result<(), Error>)
        requires
            old(self).wf(),
        ensures
            final(self).wf(),
            final(self).spec_queue() == old(self).spec_queue(),
            final(self).spec_history() == old(self).spec_history(),
            final(self).spec_last() == old(self).spec_last(),
            r is Ok ==> final(self).spec_traffic()@ == old(self).spec_traffic()@ + crate::traffic::cumulative(
                old(self).spec_traffic().spec_time() as int,
                steps@,
            ),
            r is Err ==> *final(self) == *old(self),
    {
        let result = self.traffic.refill(steps);
        proof {
            let t0 = old(self).spec_traffic();
            assert(forall|i: int| 0 <= i < old(self).spec_workload()@.len() ==> (#[trigger] old(self).spec_workload()@[i]).wf());
            if result is Ok {
                crate::traffic::lemma_total_nonneg(steps@);
                crate::traffic::lemma_cumulative_after(t0.spec_time() as int, steps@);
                assert forall|i: int| 0 <= i < self.spec_traffic()@.len() implies self.spec_last()
                    <= #[trigger] self.spec_traffic()@[i] by {
                    if i >= t0@.len() {
                        assert(self.spec_traffic()@[i] == crate::traffic::cumulative(t0.spec_time() as int, steps@)[i - t0@.len()]);
                    }
                }
            }
        }
        result
    }

    /// Emit the next arrival.
    #[verifier::rlimit(40)]
    fn next_from_traffic(&mut self, choice: usize) -> (r: Result<Option<(Event, Profile)>, Error>)
        requires
            old(self).wf(),
            old(self).spec_traffic()@.len() > 0,
            old(self).spec_history().has_room(),
            forall|i: int|
                0 <= i < old(self).spec_queue().len() ==> old(self).spec_traffic()@[0]
                    <= #[trigger] old(self).spec_queue()[i].time,
        ensures
            final(self).wf(),
            match r {
                Ok(Some((event, power))) => event.kind == Kind::Arrival && stepped(
                    *old(self),
                    *final(self),
                    choice as int,
                    event,
                    power,
                ),
                Ok(None) => false,
                Err(_) => true,
            },
            choice >= old(self).spec_workload()@.len() ==> r is Err,
            choice < old(self).spec_workload()@.len() && !enough(
                old(self).spec_workload()@[choice as int].0.elements@,
                old(self).spec_platform().spec_elements(),
            ) ==> r is Err,
    {
        if choice >= self.workload.len() {
            return Err(Error::new("the choice of a workload pattern is out of range"));
        }
        let time = match self.traffic.next() {
            Some(time) => time,
            None => return Err(Error::new("encountered a logic error")),
        };
        self.last = time;
        proof {
            let t0 = old(self).spec_traffic()@;
            assert(t0[0] == time);
            assert forall|i: int| 0 <= i < self.spec_traffic()@.len() implies self.spec_last()
                <= #[trigger] self.spec_traffic()@[i] by {
                assert(self.spec_traffic()@[i] == t0[i + 1]);
                assert(t0[0] <= t0[i + 1]);
            }
            assert(time <= old(self).spec_traffic().spec_time());
            assert(forall|i: int| 0 <= i < old(self).spec_workload()@.len() ==> (#[trigger] old(self).spec_workload()@[i]).wf());
            assert(self.spec_workload()@[choice as int].wf());
        }
        let pattern = self.workload.next(time, choice);
        let job = Job::new(ID(self.history.arrived), time, pattern);
        let event = Event::arrival(time, job.clone());
        let power = match self.platform.next(time) {
            Ok(power) => power,
            Err(error) => return Err(error),
        };
        let ghost grid = self.platform.spec_power();
        proof {
            crate::arith::lemma_floor_div(time as int, grid.spec_profile().time_step as int);
        }
        self.schedule.push(time, NoData);
        let decision = match self.schedule.next(&job) {
            Ok(decision) => decision,
            Err(error) => return Err(error),
        };
        match decision {
            Decision::Accept { start, finish, mapping } => {
                proof {
                    let c = *job.pattern.0;
                    assert(c.step_count * c.time_step > 0) by (nonlinear_arith)
                        requires
                            c.step_count >= 1,
                            c.time_step > 0,
                    ;
                }
                match self.platform.push(&job, start, &mapping) {
                    Ok(()) => {},
                    Err(error) => return Err(error),
                }
                let copy = copy_mapping(&mapping);
                let ghost before = self.queue@;
                let first = Event::start(start, job.clone(), copy);
                let last = Event::finish(finish, job, mapping);
                proof {
                    lemma_paired_append(before, first, last);
                }
                self.queue.push(first);
                self.queue.push(last);
            },
            Decision::Reject => {
                return Err(Error::new("encountered a logic error"));
            },
        }
        self.history.count(&event);
        proof {
            let q0 = old(self).spec_queue();
            assert(self.spec_queue().subrange(0, q0.len() as int) =~= q0);
            assert(ProfileBuilder::pulled(old(self).spec_platform().spec_power(), grid, time as int, power));
        }
        Ok(Some((event, power)))
    }

    /// Emit the queued event at `k`.
    fn next_from_queue(&mut self, k: usize) -> (r: Result<Option<(Event, Profile)>, Error>)
        requires
            old(self).wf(),
            old(self).spec_traffic()@.len() > 0,
            old(self).spec_history().has_room(),
            is_earliest(old(self).spec_queue(), k as int),
            old(self).spec_queue()[k as int].time < old(self).spec_traffic()@[0],
        ensures
            final(self).wf(),
            match r {
                Ok(Some((event, power))) => event.kind != Kind::Arrival && stepped(*old(self), *final(self), 0, event, power),
                Ok(None) => false,
                Err(_) => true,
            },
            pull_fits(old(self).spec_platform().spec_power(), old(self).spec_queue()[k as int].time as int) ==> r is Ok,
    {
        let event = self.queue.remove(k);
        self.last = event.time;
        proof {
            lemma_paired_remove(old(self).spec_queue(), k as int);
            let t0 = old(self).spec_traffic()@;
            let q0 = old(self).spec_queue();
            assert forall|i: int| 0 <= i < self.spec_traffic()@.len() implies self.spec_last()
                <= #[trigger] self.spec_traffic()@[i] by {
                assert(t0[0] <= t0[i]);
            }
            assert(t0[0] <= old(self).spec_traffic().spec_time());
            assert forall|i: int| 0 <= i < self.spec_queue().len() implies self.spec_last()
                <= #[trigger] self.spec_queue()[i].time by {
                if i < k {
                    assert(self.spec_queue()[i] == q0[i]);
                } else {
                    assert(self.spec_queue()[i] == q0[i + 1]);
                }
            }
            assert(forall|i: int| 0 <= i < old(self).spec_workload()@.len() ==> (#[trigger] old(self).spec_workload()@[i]).wf());
        }
        let power = match self.platform.next(event.time) {
            Ok(power) => power,
            Err(error) => return Err(error),
        };
        let ghost grid = self.platform.spec_power();
        self.schedule.push(event.time, NoData);
        self.history.count(&event);
        proof {
            assert(ProfileBuilder::pulled(old(self).spec_platform().spec_power(), grid, event.time as int, power));
            assert(is_earliest(old(self).spec_queue(), k as int));
            crate::arith::lemma_floor_div(event.time as int, grid.spec_profile().time_step as int);
            assert(old(self).spec_last() <= old(self).spec_queue()[k as int].time);
            assert(old(self).spec_queue()[k as int].kind != Kind::Arrival);
            assert(forall|i: int| 0 <= i < old(self).spec_workload()@.len() ==> (#[trigger] old(self).spec_workload()@[i]).wf());
        }
        Ok(Some((event, power)))
    }

    /// Advance to the next event and return it with the power profile of
    /// the whole steps since the previous event.
    ///
    /// The next arrival and the earliest queued event compete, the arrival
    /// winning ties. An arrival takes the pattern at `choice` of the
    /// catalog, is scheduled at once, and queues its start and finish; the
    /// platform takes in the job's power. With no arrival ahead, nothing is
    /// emitted: the caller is to append arrivals first.
    pub fn next(&mut self, choice: usize) -> (r: Result<Option<(Event, Profile)>, Error>)
        requires
            old(self).wf(),
        ensures
            final(self).wf(),
            match r {
                Ok(Some((event, power))) => stepped(*old(self), *final(self), choice as int, event, power),
                Ok(None) => old(self).spec_traffic()@.len() == 0 && *final(self) == *old(self),
                Err(_) => old(self).spec_traffic()@.len() > 0,
            },
            old(self).spec_traffic()@.len() == 0 ==> r matches Ok(None),
            arrival_next(*old(self)) && choice >= old(self).spec_workload()@.len() ==> r is Err,
            arrival_next(*old(self)) && choice < old(self).spec_workload()@.len() && !enough(
                old(self).spec_workload()@[choice as int].0.elements@,
                old(self).spec_platform().spec_elements(),
            ) ==> r is Err,
            old(self).spec_traffic()@.len() > 0 && !arrival_next(*old(self)) && old(self).spec_history().has_room()
                && (forall|k: int| #[trigger] is_earliest(old(self).spec_queue(), k) ==> pull_fits(
                old(self).spec_platform().spec_power(),
                old(self).spec_queue()[k].time as int,
            )) ==> r is Ok,
    {
        let arrival = match self.traffic.peek() {
            Some(time) => time,
            None => return Ok(None),
        };
        if !self.history.has_room_exec() {
            return Err(Error::new("too many events"));
        }
        let earliest = earliest(&self.queue);
        let from_traffic = match earliest {
            Some(k) => arrival <= self.queue[k].time,
            None => true,
        };
        if from_traffic {
            self.next_from_traffic(choice)
        } else {
            let k = match earliest {
                Some(k) => k,
                None => return Err(Error::new("encountered a logic error")),
            };
            self.next_from_queue(k)
        }
    }
}

/// Whether `states` and `events` form a run: each event was emitted by a
/// call of `next` that took the system from one state to the next, with the
/// pattern choice and the power profile at the same position.
pub open spec fn is_run(states: Seq<System>, events: Seq<Event>, choices: Seq<int>, powers: Seq<Profile>) -> bool {
    &&& states.len() == events.len() + 1
    &&& choices.len() == events.len()
    &&& powers.len() == events.len()
    &&& forall|k: int|
        0 <= k < events.len() ==> stepped(#[trigger] states[k], states[k + 1], choices[k], events[k], powers[k])
}

/// The types of the events.
pub open spec fn kinds(events: Seq<Event>) -> Seq<Kind> {
    events.map_values(|e: Event| e.kind)
}

/// Events come in order of time: of two consecutive events of a run, the
/// first is never later than the second.
pub proof fn law_events_in_order(states: Seq<System>, events: Seq<Event>, choices: Seq<int>, powers: Seq<Profile>)
    requires
        is_run(states, events, choices, powers),
    ensures
        forall|k: int| 0 <= k < events.len() - 1 ==> #[trigger] events[k].time <= events[k + 1].time,
{
    assert forall|k: int| 0 <= k < events.len() - 1 implies #[trigger] events[k].time <= events[k + 1].time by {
        assert(stepped(states[k], states[k + 1], choices[k], events[k], powers[k]));
        assert(stepped(states[k + 1], states[k + 2], choices[k + 1], events[k + 1], powers[k + 1]));
    }
}

/// The statistics match the stream: over a run, each counter grows by the
/// number of events of its type emitted.
pub proof fn law_history_matches(states: Seq<System>, events: Seq<Event>, choices: Seq<int>, powers: Seq<Profile>)
    requires
        is_run(states, events, choices, powers),
    ensures
        states.last().spec_history().arrived == states[0].spec_history().arrived + occurrences(kinds(events), Kind::Arrival),
        states.last().spec_history().started == states[0].spec_history().started + occurrences(kinds(events), Kind::Start),
        states.last().spec_history().finished == states[0].spec_history().finished + occurrences(kinds(events), Kind::Finish),
    decreases events.len(),
{
    let n = events.len() as int;
    if n > 0 {
        let s = states.drop_last();
        let e = events.drop_last();
        let c = choices.drop_last();
        let p = powers.drop_last();
        assert forall|k: int| 0 <= k < e.len() implies stepped(#[trigger] s[k], s[k + 1], c[k], e[k], p[k]) by {
            assert(stepped(states[k], states[k + 1], choices[k], events[k], powers[k]));
        }
        law_history_matches(s, e, c, p);
        assert(kinds(events).drop_last() =~= kinds(e));
        assert(stepped(states[n - 1], states[n], choices[n - 1], events[n - 1], powers[n - 1]));
    }
}

/// Jobs are numbered as they arrive: over a run, the job of an arrival has
/// the number of arrivals before it, counted from the first state, so no
/// two arrivals share a job.
pub proof fn law_arrivals_numbered(states: Seq<System>, events: Seq<Event>, choices: Seq<int>, powers: Seq<Profile>)
    requires
        is_run(states, events, choices, powers),
    ensures
        forall|k: int|
            0 <= k < events.len() && (#[trigger] events[k]).kind == Kind::Arrival ==> events[k].job.id.0
                == states[0].spec_history().arrived + occurrences(kinds(events.take(k)), Kind::Arrival),
{
    assert forall|k: int|
        0 <= k < events.len() && (#[trigger] events[k]).kind == Kind::Arrival implies events[k].job.id.0
            == states[0].spec_history().arrived + occurrences(kinds(events.take(k)), Kind::Arrival) by {
        let s = states.take(k + 1);
        let e = events.take(k);
        let c = choices.take(k);
        let p = powers.take(k);
        assert forall|m: int| 0 <= m < e.len() implies stepped(#[trigger] s[m], s[m + 1], c[m], e[m], p[m]) by {
            assert(stepped(states[m], states[m + 1], choices[m], events[m], powers[m]));
        }
        law_history_matches(s, e, c, p);
        assert(stepped(states[k], states[k + 1], choices[k], events[k], powers[k]));
    }
}

/// Once a start or finish was emitted, no event of the same type and job
/// waits in the queue any more, and the job's number stays below the count
/// of arrivals.
proof fn lemma_turn_gone(states: Seq<System>, events: Seq<Event>, choices: Seq<int>, powers: Seq<Profile>, m: int, k: int)
    requires
        is_run(states, events, choices, powers),
        0 <= m < k <= events.len(),
        events[m].kind != Kind::Arrival,
    ensures
        forall|i: int| 0 <= i < states[k].spec_queue().len() ==> !same_turn(events[m], #[trigger] states[k].spec_queue()[i]),
        events[m].job.id.0 < states[k].spec_history().arrived,
    decreases k - m,
{
    assert(stepped(states[k - 1], states[k], choices[k - 1], events[k - 1], powers[k - 1]));
    let q0 = states[k - 1].spec_queue();
    let q1 = states[k].spec_queue();
    if k == m + 1 {
        let idx = choose|idx: int| #[trigger] is_earliest(q0, idx) && events[m] == q0[idx] && q1 == q0.remove(idx);
        assert forall|i: int| 0 <= i < q1.len() implies !same_turn(events[m], #[trigger] q1[i]) by {
            if i < idx {
                assert(q1[i] == q0[i]);
                assert(!same_turn(q0[i], q0[idx]));
            } else {
                assert(q1[i] == q0[i + 1]);
                assert(!same_turn(q0[idx], q0[i + 1]));
            }
        }
    } else {
        lemma_turn_gone(states, events, choices, powers, m, k - 1);
        if events[k - 1].kind == Kind::Arrival {
            assert forall|i: int| 0 <= i < q1.len() implies !same_turn(events[m], #[trigger] q1[i]) by {
                if i < q0.len() {
                    assert(q1[i] == q1.subrange(0, q0.len() as int)[i]);
                }
            }
        } else {
            let idx = choose|idx: int| #[trigger] is_earliest(q0, idx) && events[k - 1] == q0[idx] && q1 == q0.remove(idx);
            assert forall|i: int| 0 <= i < q1.len() implies !same_turn(events[m], #[trigger] q1[i]) by {
                if i < idx {
                    assert(q1[i] == q0[i]);
                } else {
                    assert(q1[i] == q0[i + 1]);
                }
            }
        }
    }
}

/// Each job starts at most once and finishes at most once: over a run, no
/// two starts, and no two finishes, belong to the same job. (Each job also
/// arrives once, see `law_arrivals_numbered`, and its start and finish are
/// queued at its arrival strictly after it and strictly in that order, see
/// `stepped`.)
pub proof fn law_single_lifecycle(states: Seq<System>, events: Seq<Event>, choices: Seq<int>, powers: Seq<Profile>)
    requires
        is_run(states, events, choices, powers),
    ensures
        forall|m: int, k: int|
            0 <= m < k < events.len() && events[m].kind != Kind::Arrival ==> !same_turn(
                #[trigger] events[m],
                #[trigger] events[k],
            ),
{
    assert forall|m: int, k: int|
        0 <= m < k < events.len() && events[m].kind != Kind::Arrival implies !same_turn(
            #[trigger] events[m],
            #[trigger] events[k],
        ) by {
        lemma_turn_gone(states, events, choices, powers, m, k);
        assert(stepped(states[k], states[k + 1], choices[k], events[k], powers[k]));
        if events[k].kind != Kind::Arrival {
            let q0 = states[k].spec_queue();
            let idx = choose|idx: int| #[trigger] is_earliest(q0, idx) && events[k] == q0[idx] && states[k + 1].spec_queue() == q0.remove(idx);
            assert(!same_turn(events[m], q0[idx]));
        }
    }
}

/// Until it is emitted, the finish of a job that started waits in the queue,
/// one job duration after the start.
proof fn lemma_finish_waits(states: Seq<System>, events: Seq<Event>, choices: Seq<int>, powers: Seq<Profile>, m: int, k: int)
    requires
        is_run(states, events, choices, powers),
        0 <= m < k <= events.len(),
        events[m].kind == Kind::Start,
        forall|t: int|
            m < t < k ==> !(#[trigger] events[t].kind == Kind::Finish && events[t].job.id == events[m].job.id),
    ensures
        exists|x: int|
            0 <= x < states[k].spec_queue().len() && (#[trigger] states[k].spec_queue()[x]).kind == Kind::Finish
                && states[k].spec_queue()[x].job.id == events[m].job.id && states[k].spec_queue()[x].time
                == events[m].time + events[m].job.pattern.spec_duration(),
    decreases k - m,
{
    assert(stepped(states[k - 1], states[k], choices[k - 1], events[k - 1], powers[k - 1]));
    let q0 = states[k - 1].spec_queue();
    let q1 = states[k].spec_queue();
    if k == m + 1 {
        let x = choose|x: int| #[trigger] is_earliest(q0, x) && events[m] == q0[x] && q1 == q0.remove(x);
        let y = choose|y: int| #[trigger] finishes(q0, x, y);
        let y1 = if y < x { y } else { y - 1 };
        assert(q1[y1] == q0[y]);
    } else {
        lemma_finish_waits(states, events, choices, powers, m, k - 1);
        let y = choose|y: int|
            0 <= y < q0.len() && (#[trigger] q0[y]).kind == Kind::Finish && q0[y].job.id == events[m].job.id
                && q0[y].time == events[m].time + events[m].job.pattern.spec_duration();
        assert(!(events[k - 1].kind == Kind::Finish && events[k - 1].job.id == events[m].job.id));
        if events[k - 1].kind == Kind::Arrival {
            assert(q1[y] == q1.subrange(0, q0.len() as int)[y]);
        } else {
            let x = choose|x: int| #[trigger] is_earliest(q0, x) && events[k - 1] == q0[x] && q1 == q0.remove(x);
            let y1 = if y < x { y } else { y - 1 };
            assert(q1[y1] == q0[y]);
        }
    }
}

/// Jobs live in order: over a run, an arrival is at its job's arrival time,
/// every start or finish comes strictly after its job's arrival, and the
/// finish of a job that started comes one job duration, so strictly, after
/// its start.
pub proof fn law_lifecycle_times(states: Seq<System>, events: Seq<Event>, choices: Seq<int>, powers: Seq<Profile>)
    requires
        is_run(states, events, choices, powers),
    ensures
        forall|k: int|
            0 <= k < events.len() && (#[trigger] events[k]).kind == Kind::Arrival ==> events[k].job.arrival == events[k].time,
        forall|k: int|
            0 <= k < events.len() && (#[trigger] events[k]).kind != Kind::Arrival ==> events[k].job.arrival < events[k].time,
        forall|m: int, k: int|
            0 <= m < k < events.len() && (#[trigger] events[m]).kind == Kind::Start && (#[trigger] events[k]).kind
                == Kind::Finish && events[k].job.id == events[m].job.id ==> events[k].time == events[m].time
                + events[m].job.pattern.spec_duration() && events[m].time < events[k].time,
{
    assert forall|k: int|
        0 <= k < events.len() && (#[trigger] events[k]).kind == Kind::Arrival implies events[k].job.arrival == events[k].time by {
        assert(stepped(states[k], states[k + 1], choices[k], events[k], powers[k]));
    }
    assert forall|k: int|
        0 <= k < events.len() && (#[trigger] events[k]).kind != Kind::Arrival implies events[k].job.arrival < events[k].time by {
        assert(stepped(states[k], states[k + 1], choices[k], events[k], powers[k]));
        let q = states[k].spec_queue();
        let x = choose|x: int| #[trigger] is_earliest(q, x) && events[k] == q[x] && states[k + 1].spec_queue() == q.remove(x);
        assert(q[x].job.arrival < q[x].time);
    }
    law_single_lifecycle(states, events, choices, powers);
    assert forall|m: int, k: int|
        0 <= m < k < events.len() && (#[trigger] events[m]).kind == Kind::Start && (#[trigger] events[k]).kind
            == Kind::Finish && events[k].job.id == events[m].job.id implies events[k].time == events[m].time
            + events[m].job.pattern.spec_duration() && events[m].time < events[k].time by {
        assert forall|t: int| m < t < k implies !(#[trigger] events[t].kind == Kind::Finish && events[t].job.id == events[m].job.id) by {
            if events[t].kind == Kind::Finish && events[t].job.id == events[m].job.id {
                assert(!same_turn(events[t], events[k]));
            }
        }
        lemma_finish_waits(states, events, choices, powers, m, k);
        assert(stepped(states[k], states[k + 1], choices[k], events[k], powers[k]));
        let q = states[k].spec_queue();
        let x = choose|x: int| #[trigger] is_earliest(q, x) && events[k] == q[x] && states[k + 1].spec_queue() == q.remove(x);
        let y = choose|y: int|
            0 <= y < q.len() && (#[trigger] q[y]).kind == Kind::Finish && q[y].job.id == events[m].job.id
                && q[y].time == events[m].time + events[m].job.pattern.spec_duration();
        if x != y {
            if x < y {
                assert(!same_turn(q[x], q[y]));
            } else {
                assert(!same_turn(q[y], q[x]));
            }
        }
        assert(stepped(states[m], states[m + 1], choices[m], events[m], powers[m]));
        let qm = states[m].spec_queue();
        let xm = choose|x: int| #[trigger] is_earliest(qm, x) && events[m] == qm[x] && states[m + 1].spec_queue() == qm.remove(x);
        assert(qm[xm].job.pattern.wf());
        let c = *events[m].job.pattern.0;
        assert(c.step_count * c.time_step > 0) by (nonlinear_arith)
            requires
                c.step_count >= 1,
                c.time_step > 0,
        ;
    }
}

/// Profiles sit on the grid: the power profile emitted with an event starts
/// where the grid stood, on a multiple of its time step.
pub proof fn law_profile_on_grid(before: System, after: System, choice: int, event: Event, power: Profile)
    requires
        stepped(before, after, choice, event, power),
    ensures
        power.wf(),
        power.time % power.time_step == 0,
        power.time == before.spec_platform().spec_power().spec_profile().time,
{
}

/// Find the earliest event, the first one among equals.
fn earliest(events: &Vec<Event>) -> (r: Option<usize>)
    ensures
        match r {
            Some(k) => is_earliest(events@, k as int),
            None => events@.len() == 0,
        },
{
    if events.len() == 0 {
        return None;
    }
    let mut best: usize = 0;
    let mut i: usize = 1;
    while i < events.len()
        invariant
            events@.len() > 0,
            0 <= best < i <= events@.len(),
            forall|j: int| 0 <= j < i ==> events@[best as int].time <= #[trigger] events@[j].time,
            forall|j: int| 0 <= j < best ==> events@[best as int].time < #[trigger] events@[j].time,
        decreases events@.len() - i,
    {
        if events[i].time < events[best].time {
            best = i;
        }
        i += 1;
    }
    Some(best)
}

/// Copy a mapping.
fn copy_mapping(mapping: &Mapping) -> (r: Mapping)
    ensures
        r@ == mapping@,
{
    let mut out: Mapping = Vec::new();
    let mut i: usize = 0;
    while i < mapping.len()
        invariant
            0 <= i <= mapping@.len(),
            out@ == mapping@.subrange(0, i as int),
        decreases mapping@.len() - i,
    {
        out.push(mapping[i]);
        proof {
            assert(out@ =~= mapping@.subrange(0, i + 1));
        }
        i += 1;
    }
    proof {
        assert(out@ =~= mapping@);
    }
    out
}

} // verus!
