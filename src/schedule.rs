//! Job scheduling.
use vstd::prelude::*;

use crate::element::{capacity_of, Element, ElementCapacity};
use crate::job::Job;
use crate::queue::{
    lemma_ending_after_subset, nonempty, occupied_at, taken, vacant, Interval, Queue, FOREVER,
};
use crate::result::Error;
use crate::time::{next_after, TIME_LIMIT};
use crate::workload;

verus! {

/// Whether `order` lists each index below `n` exactly once.
pub open spec fn is_permutation(order: Seq<usize>, n: int) -> bool {
    &&& order.len() == n
    &&& forall|a: int| 0 <= a < order.len() ==> #[trigger] order[a] < n
    &&& forall|a: int, b: int| 0 <= a < b < order.len() ==> order[a] != order[b]
    &&& forall|j: int| 0 <= j < n ==> #[trigger] listed(order, j)
}

/// Whether `order` lists `j`.
pub open spec fn listed(order: Seq<usize>, j: int) -> bool {
    exists|a: int| 0 <= a < order.len() && #[trigger] order[a] == j
}

/// Whether `order` lists `items` by start, keeping the order of items with
/// equal starts.
pub open spec fn sorted_by_start(items: Seq<Interval>, order: Seq<usize>) -> bool {
    forall|a: int, b: int|
        0 <= a < b < order.len() ==> items[order[a] as int].0 < items[order[b] as int].0 || (
        items[order[a] as int].0 == items[order[b] as int].0 && order[a] < order[b])
}

/// Return the indices of `items` in order of start; items with equal starts
/// keep their order.
pub fn sort(items: &[Interval]) -> (r: Vec<usize>)
    ensures
        is_permutation(r@, items@.len() as int),
        sorted_by_start(items@, r@),
{
    let n = items.len();
    let mut order: Vec<usize> = Vec::new();
    let mut k: usize = 0;
    while k < n
        invariant
            n == items@.len(),
            0 <= k <= n,
            order@.len() == k,
            forall|a: int| 0 <= a < order@.len() ==> #[trigger] order@[a] < k,
            forall|a: int, b: int| 0 <= a < b < order@.len() ==> order@[a] != order@[b],
            forall|j: int| 0 <= j < k ==> #[trigger] listed(order@, j),
            sorted_by_start(items@, order@),
        decreases n - k,
    {
        let key = items[k].0;
        let mut p: usize = 0;
        while p < k && items[order[p]].0 <= key
            invariant
                n == items@.len(),
                0 <= k < n,
                0 <= p <= k,
                order@.len() == k,
                forall|a: int| 0 <= a < order@.len() ==> #[trigger] order@[a] < k,
                forall|a: int| 0 <= a < p ==> items[#[trigger] order@[a] as int].0 <= key,
            decreases k - p,
        {
            p += 1;
        }
        let ghost before = order@;
        order.insert(p, k);
        proof {
            assert forall|a: int, b: int| 0 <= a < b < order@.len() implies items[order@[a] as int].0
                < items[order@[b] as int].0 || (items[order@[a] as int].0 == items[order@[b] as int].0
                && order@[a] < order@[b]) by {
                if b < p {
                    assert(order@[a] == before[a] && order@[b] == before[b]);
                } else if b == p {
                    assert(order@[a] == before[a]);
                } else if a < p {
                    assert(order@[a] == before[a] && order@[b] == before[b - 1]);
                } else if a == p {
                    assert(order@[b] == before[b - 1]);
                    if p < k {
                        assert(!(items[before[p as int] as int].0 <= key));
                        if b - 1 > p {
                            assert(items[before[p as int] as int].0 <= items[before[b - 1] as int].0);
                        }
                    }
                } else {
                    assert(order@[a] == before[a - 1] && order@[b] == before[b - 1]);
                }
            }
            assert forall|j: int| 0 <= j < k + 1 implies #[trigger] listed(order@, j) by {
                if j == k {
                    assert(order@[p as int] == j);
                } else {
                    assert(listed(before, j));
                    let a = choose|a: int| 0 <= a < before.len() && #[trigger] before[a] == j;
                    if a < p {
                        assert(order@[a] == j);
                    } else {
                        assert(order@[a + 1] == j);
                    }
                }
            }
            assert forall|a: int, b: int| 0 <= a < b < order@.len() implies order@[a] != order@[b] by {
                if a < p && b < p {
                    assert(order@[a] == before[a] && order@[b] == before[b]);
                } else if a < p && b > p {
                    assert(order@[a] == before[a] && order@[b] == before[b - 1]);
                } else if a > p {
                    assert(order@[a] == before[a - 1] && order@[b] == before[b - 1]);
                }
            }
        }
        k += 1;
    }
    order
}

/// The number of `x` in `[0, n)` that satisfy `p`.
pub open spec fn count_where(p: spec_fn(int) -> bool, n: int) -> nat
    decreases n,
{
    if n <= 0 {
        0
    } else {
        count_where(p, n - 1) + if p(n - 1) {
            1nat
        } else {
            0nat
        }
    }
}

/// Predicates that agree below `n` count alike there.
proof fn lemma_count_agree(p: spec_fn(int) -> bool, q: spec_fn(int) -> bool, n: int)
    requires
        forall|x: int| 0 <= x < n ==> #[trigger] p(x) == q(x),
    ensures
        count_where(p, n) == count_where(q, n),
    decreases n,
{
    if n > 0 {
        lemma_count_agree(p, q, n - 1);
    }
}

/// Counting further never counts less.
proof fn lemma_count_grows(p: spec_fn(int) -> bool, n: int, m: int)
    requires
        n <= m,
    ensures
        count_where(p, n) <= count_where(p, m),
    decreases m - n,
{
    if n < m {
        lemma_count_grows(p, n, m - 1);
    }
}

/// Leaving out one point that satisfies `q` lowers its count by one.
proof fn lemma_count_drop(q: spec_fn(int) -> bool, m: int, y: int)
    requires
        0 <= y < m,
        q(y),
    ensures
        count_where(|z: int| q(z) && z != y, m) + 1 == count_where(q, m),
    decreases m,
{
    if y < m - 1 {
        lemma_count_drop(q, m - 1, y);
    } else {
        lemma_count_agree(|z: int| q(z) && z != y, q, m - 1);
    }
}

/// A one-to-one map from the points below `n` that satisfy `p` to the
/// points below `m` that satisfy `q` shows that the first are no more.
proof fn lemma_count_injection(
    p: spec_fn(int) -> bool,
    n: int,
    q: spec_fn(int) -> bool,
    m: int,
    f: spec_fn(int) -> int,
)
    requires
        forall|x: int| 0 <= x < n && #[trigger] p(x) ==> 0 <= f(x) < m && q(f(x)),
        forall|x1: int, x2: int|
            0 <= x1 < x2 < n && #[trigger] p(x1) && #[trigger] p(x2) ==> f(x1) != f(x2),
    ensures
        count_where(p, n) <= count_where(q, m),
    decreases n,
{
    if n > 0 {
        if p(n - 1) {
            let y = f(n - 1);
            let rest = |z: int| q(z) && z != y;
            assert forall|x: int| 0 <= x < n - 1 && #[trigger] p(x) implies 0 <= f(x) < m && rest(f(x)) by {
                assert(f(x) != f(n - 1));
            }
            lemma_count_injection(p, n - 1, rest, m, f);
            lemma_count_drop(q, m, y);
        } else {
            lemma_count_injection(p, n - 1, q, m, f);
        }
    }
}

/// Whether some single-capacity queue holds an interval that ends at `time`.
pub open spec fn ends_at(queues: Seq<Queue>, time: u64) -> bool {
    exists|i: int, k: int|
        0 <= i < queues.len() && queues[i].spec_capacity() == ElementCapacity::Single && 0 <= k
            < queues[i]@.len() && #[trigger] queues[i]@[k].1 == time
}

/// Whether the platform has, for the kind of each workload element, at
/// least as many elements as the workload asks for.
pub open spec fn enough(guests: Seq<workload::Element>, hosts: Seq<Element>) -> bool {
    forall|i: int|
        0 <= i < guests.len() ==> count_where(|a: int| guests[a].kind == #[trigger] guests[i].kind, guests.len() as int)
            <= count_where(|j: int| hosts[j].kind == guests[i].kind, hosts.len() as int)
}

/// Whether the workload element `i` finds fewer elements of its kind vacant
/// from `start` than earlier workload elements of its kind asked for.
pub open spec fn short_at(guests: Seq<workload::Element>, hosts: Seq<Element>, intervals: Seq<Interval>, start: u64, i: int) -> bool {
    &&& 0 <= i < guests.len()
    &&& count_where(|j: int| hosts[j].kind == guests[i].kind && intervals[j].0 == start, hosts.len() as int)
        <= count_where(|a: int| guests[a].kind == guests[i].kind, i)
}

/// A mapping of a job's processing elements to the platform's processing
/// elements: pairs of a workload-element index and a platform-element id.
pub type Mapping = Vec<(usize, usize)>;

/// A scheduling decision.
#[derive(Debug)]
pub enum Decision {
    /// Run the job over `[start, finish)` on the mapped elements.
    Accept {
        /// The start of the execution interval.
        start: u64,
        /// The end of the execution interval.
        finish: u64,
        /// The mapping of the job to the platform.
        mapping: Mapping,
    },
    /// Do not run the job.
    Reject,
}

impl Decision {
    /// Create an accept decision.
    pub fn accept(start: u64, finish: u64, mapping: Mapping) -> (r: Decision)
        ensures
            r == (Decision::Accept { start, finish, mapping }),
    {
        Decision::Accept { start, finish, mapping }
    }

    /// Create a reject decision.
    pub fn reject() -> (r: Decision)
        ensures
            r == Decision::Reject,
    {
        Decision::Reject
    }
}

/// A placeholder signifying that no data are needed.
#[derive(Clone, Copy, Debug)]
pub struct NoData;

/// A first-come, first-served scheduling policy that places each job at the
/// earliest time when enough suitable elements are vacant together.
pub struct Impartial {
    elements: Vec<Element>,
    queues: Vec<Queue>,
}

/// Whether `mapping` places the workload elements `guests` onto distinct
/// elements of `hosts` of the same kinds, in the order of the guests.
pub open spec fn mapping_valid(mapping: Seq<(usize, usize)>, guests: Seq<workload::Element>, hosts: Seq<Element>) -> bool {
    &&& mapping.len() == guests.len()
    &&& forall|i: int| 0 <= i < mapping.len() ==> (#[trigger] mapping[i]).0 == i
    &&& forall|i: int| 0 <= i < mapping.len() ==> (#[trigger] mapping[i]).1 < hosts.len()
    &&& forall|i: int|
        0 <= i < mapping.len() ==> hosts[(#[trigger] mapping[i]).1 as int].kind == guests[i].kind
    &&& forall|i: int, k: int| 0 <= i < k < mapping.len() ==> mapping[i].1 != mapping[k].1
}

/// Whether the element `j` is one that `mapping` uses.
pub open spec fn mapped(mapping: Seq<(usize, usize)>, j: int) -> bool {
    exists|i: int| 0 <= i < mapping.len() && mapping[i].1 == j
}

/// Whether `queue` holds the interval `[start, finish)`.
pub open spec fn holds(queue: Seq<Interval>, start: u64, finish: u64) -> bool {
    exists|k: int| 0 <= k < queue.len() && queue[k] == Interval(start, finish)
}

/// Whether the queue `after` is `before` once the interval `[start, finish)`
/// was pushed onto it.
pub open spec fn changed_by(before: Queue, after: Queue, start: u64, finish: u64) -> bool {
    &&& after.wf()
    &&& after.spec_capacity() == before.spec_capacity()
    &&& exists|b: int, k: int| #[trigger] occupied_at(before@, after@, start as int, finish as int, b, k)
}

/// Whether `after` is the policy `before` once it accepted `job` over
/// `[start, finish)` with `mapping`: the job starts after it arrives and runs
/// for the duration of its pattern, the mapping places each workload element
/// on a distinct platform element of its kind, each single-capacity element
/// used was vacant over the interval and now holds it, each element used
/// has the interval pushed onto its queue, and the other queues stay as they
/// were.
pub open spec fn accepted(before: Impartial, after: Impartial, job: Job, start: u64, finish: u64, mapping: Seq<(usize, usize)>) -> bool {
    let q0 = before.spec_queues();
    let q1 = after.spec_queues();
    &&& job.arrival < start
    &&& finish == start + job.pattern.spec_duration()
    &&& finish <= TIME_LIMIT
    &&& mapping_valid(mapping, job.pattern.0.elements@, before.spec_elements())
    &&& forall|i: int|
        0 <= i < mapping.len() ==> changed_by(q0[(#[trigger] mapping[i]).1 as int], q1[mapping[i].1 as int], start, finish)
    &&& forall|i: int|
        0 <= i < mapping.len() && q0[(#[trigger] mapping[i]).1 as int].spec_capacity() == ElementCapacity::Single
            ==> vacant(q0[mapping[i].1 as int]@, start as int, finish as int) && holds(q1[mapping[i].1 as int]@, start, finish)
    &&& forall|j: int| 0 <= j < q0.len() && !mapped(mapping, j) ==> #[trigger] q1[j] == q0[j]
}

impl Impartial {
    /// The processing elements of the platform.
    pub closed spec fn spec_elements(&self) -> Seq<Element> {
        self.elements@
    }

    /// The queues, one per element.
    pub closed spec fn spec_queues(&self) -> Seq<Queue> {
        self.queues@
    }

    /// The invariant: one queue per element, of the element's capacity;
    /// elements numbered by position; the queues of single-capacity elements
    /// hold nonempty intervals that end within the time limit.
    pub open spec fn wf(&self) -> bool {
        let e = self.spec_elements();
        let q = self.spec_queues();
        &&& e.len() == q.len()
        &&& forall|i: int| 0 <= i < e.len() ==> (#[trigger] e[i]).id == i
        &&& forall|i: int|
            0 <= i < q.len() ==> (#[trigger] q[i]).wf() && q[i].spec_capacity() == capacity_of(e[i].kind)
        &&& forall|i: int|
            0 <= i < q.len() && (#[trigger] q[i]).spec_capacity() == ElementCapacity::Single ==> nonempty(q[i]@)
                && forall|k: int| 0 <= k < q[i]@.len() ==> #[trigger] q[i]@[k].1 <= TIME_LIMIT
    }

    /// Whether the times and sizes involved in placing `job` stay within the
    /// machine's limits: the job can end within the time limit whether it
    /// starts right after its arrival or when an occupied interval ends, and
    /// no queue is close to the largest size.
    pub open spec fn room(&self, job: Job) -> bool {
        let q = self.spec_queues();
        let length = job.pattern.spec_duration();
        &&& job.arrival + 1 + length <= TIME_LIMIT
        &&& forall|i: int, k: int|
            0 <= i < q.len() && q[i].spec_capacity() == ElementCapacity::Single && 0 <= k < q[i]@.len()
                ==> #[trigger] q[i]@[k].1 + length <= TIME_LIMIT
        &&& forall|i: int| 0 <= i < q.len() ==> (#[trigger] q[i])@.len() + TIME_LIMIT < FOREVER
    }

    /// Create a scheduling policy for the elements of a platform.
    pub fn new(elements: &[Element]) -> (r: Impartial)
        requires
            forall|i: int| 0 <= i < elements@.len() ==> (#[trigger] elements@[i]).id == i,
        ensures
            r.wf(),
            r.spec_elements() == elements@,
            forall|i: int| 0 <= i < elements@.len() ==> (#[trigger] r.spec_queues()[i])@.len() == 0,
    {
        let mut copy: Vec<Element> = Vec::new();
        let mut queues: Vec<Queue> = Vec::new();
        let mut i: usize = 0;
        while i < elements.len()
            invariant
                0 <= i <= elements@.len(),
                copy@ == elements@.subrange(0, i as int),
                queues@.len() == i,
                forall|k: int| 0 <= k < i ==> (#[trigger] queues@[k]).wf() && queues@[k]@.len() == 0
                    && queues@[k].spec_capacity() == capacity_of(elements@[k].kind),
            decreases elements@.len() - i,
        {
            let element = elements[i];
            copy.push(element);
            queues.push(Queue::new(element.capacity()));
            proof {
                assert(copy@ =~= elements@.subrange(0, i + 1));
            }
            i += 1;
        }
        proof {
            assert(copy@ =~= elements@);
        }
        Impartial { elements: copy, queues }
    }

    /// Return the processing elements.
    pub fn elements(&self) -> (r: &Vec<Element>)
        ensures
            r@ == self.spec_elements(),
    {
        &self.elements
    }

    /// Return the queues.
    pub fn queues(&self) -> (r: &Vec<Queue>)
        ensures
            r@ == self.spec_queues(),
    {
        &self.queues
    }

    /// Take a decision with respect to a job.
    ///
    /// The search for a start begins right after the arrival, so that a job
    /// starts strictly after it arrives. At each candidate start, every
    /// queue names its first vacancy; the elements are ordered by the start
    /// of their vacancies, the earliest such start is tried, and the workload
    /// elements are given, in order, the first vacant elements of their
    /// kinds. When some workload element finds none, the next later vacancy
    /// start is tried; when there is none, the job cannot be placed. The
    /// chosen queues are then occupied over the execution interval.
    pub fn next(&mut self, job: &Job) -> (r: Result<Decision, Error>)
        requires
            old(self).wf(),
            job.pattern.wf(),
        ensures
            final(self).wf(),
            final(self).spec_elements() == old(self).spec_elements(),
            final(self).spec_queues().len() == old(self).spec_queues().len(),
            match r {
                Ok(Decision::Accept { start, finish, mapping }) => accepted(
                    *old(self),
                    *final(self),
                    *job,
                    start,
                    finish,
                    mapping@,
                ),
                Ok(Decision::Reject) => false,
                Err(_) => final(self).spec_queues() == old(self).spec_queues(),
            },
            r is Err ==> !enough(job.pattern.0.elements@, old(self).spec_elements()) || !old(self).room(*job),
            !enough(job.pattern.0.elements@, old(self).spec_elements()) ==> r is Err,
    {
        let have = self.elements.len();
        let guests = &job.pattern.0.elements;
        let need = guests.len();
        if have == 0 {
            proof {
                let earlier = |a: int| guests@[a].kind == guests@[0].kind;
                lemma_count_grows(earlier, 1, need as int);
                assert(count_where(earlier, 0) == 0);
                assert(earlier(0));
                assert(count_where(earlier, 1) == 1);
                assert(count_where(|j: int| self.spec_elements()[j].kind == guests@[0].kind, 0) == 0);
                assert(count_where(|a: int| guests@[a].kind == guests@[0].kind, need as int) == count_where(earlier, need as int));
            }
            return Err(Error::new("failed to allocate resources for a job"));
        }
        if job.arrival >= TIME_LIMIT {
            return Err(Error::new("the time limit has been reached"));
        }
        let length = job.pattern.duration();
        proof {
            let c = *job.pattern.0;
            assert(c.step_count * c.time_step > 0) by (nonlinear_arith)
                requires
                    c.step_count >= 1,
                    c.time_step > 0,
            ;
        }
        let (found_start, found) = match self.search(guests, next_after(job.arrival), length) {
            Ok(result) => result,
            Err(error) => return Err(error),
        };
        let after = next_after(job.arrival);
        let start = if found_start < after { after } else { found_start };
        if start > TIME_LIMIT - length {
            proof {
                if start != after {
                    assert(ends_at(self.spec_queues(), start));
                    let (qi, k) = choose|qi: int, k: int|
                        0 <= qi < self.spec_queues().len() && self.spec_queues()[qi].spec_capacity() == ElementCapacity::Single
                            && 0 <= k < self.spec_queues()[qi]@.len() && #[trigger] self.spec_queues()[qi]@[k].1 == start;
                    assert(self.spec_queues()[qi]@[k].1 + length > TIME_LIMIT);
                }
            }
            return Err(Error::new("the time limit has been reached"));
        }
        let finish = start + length;
        let mut i: usize = 0;
        while i < need
            invariant
                self.wf(),
                have == self.spec_elements().len(),
                need == found@.len(),
                forall|k: int| 0 <= k < found@.len() ==> (#[trigger] found@[k]) < have,
                0 <= i <= need,
                start <= TIME_LIMIT,
                forall|k: int| 0 <= k < i ==> start + self.spec_queues()[(#[trigger] found@[k]) as int]@.len() < FOREVER,
            decreases need - i,
        {
            let count = self.queues[found[i]].occupied().len();
            if count as u64 >= FOREVER - start {
                proof {
                    assert(self.spec_queues()[found@[i as int] as int]@.len() + TIME_LIMIT >= FOREVER);
                }
                return Err(Error::new("too many intervals are occupied"));
            }
            i += 1;
        }
        let ghost queues0 = self.spec_queues();
        let mut mapping: Mapping = Vec::new();
        let mut i: usize = 0;
        while i < need
            invariant
                self.wf(),
                have == self.spec_elements().len(),
                self.spec_elements() == old(self).spec_elements(),
                queues0 == old(self).spec_queues(),
                self.spec_queues().len() == have,
                need == found@.len(),
                need == guests@.len(),
                forall|k: int| 0 <= k < found@.len() ==> (#[trigger] found@[k]) < have,
                forall|a: int, k: int| 0 <= a < k < found@.len() ==> found@[a] != found@[k],
                forall|k: int| 0 <= k < need ==> start + queues0[(#[trigger] found@[k]) as int]@.len() < FOREVER,
                forall|k: int|
                    0 <= k < found@.len() && queues0[(#[trigger] found@[k]) as int].spec_capacity()
                        == ElementCapacity::Single ==> vacant(queues0[found@[k] as int]@, start as int, finish as int),
                0 <= i <= need,
                start < finish <= TIME_LIMIT,
                mapping@.len() == i,
                forall|k: int| 0 <= k < i ==> #[trigger] mapping@[k] == (k as usize, found@[k]),
                forall|k: int| 0 <= k < i ==> changed_by(queues0[(#[trigger] found@[k]) as int], self.spec_queues()[found@[k] as int], start, finish),
                forall|k: int|
                    0 <= k < i && queues0[(#[trigger] found@[k]) as int].spec_capacity() == ElementCapacity::Single
                        ==> holds(self.spec_queues()[found@[k] as int]@, start, finish),
                forall|k: int|
                    0 <= k < found@.len() ==> self.spec_elements()[(#[trigger] found@[k]) as int].kind
                        == guests@[k].kind,
                queues0.len() == have,
                forall|j: int| 0 <= j < have && !(exists|k: int| 0 <= k < i && #[trigger] found@[k] == j) ==> self.spec_queues()[j] == queues0[j],
            decreases need - i,
        {
            let j = found[i];
            proof {
                assert(!(exists|k: int| 0 <= k < i && #[trigger] found@[k] == j));
                assert(self.spec_queues()[j as int] == queues0[j as int]);
            }
            let ghost q0 = self.spec_queues()[j as int];
            self.queues[j].push((start, finish));
            proof {
                let q1 = self.spec_queues()[j as int];
                let (b, k) = choose|b: int, k: int| #[trigger] occupied_at(q0@, q1@, start as int, finish as int, b, k);
                assert(occupied_at(q0@, q1@, start as int, finish as int, b, k));
                if q0.spec_capacity() == ElementCapacity::Single {
                    assert(!taken(q0@, start as int)) by {
                        if taken(q0@, start as int) {
                            let m = choose|m: int| 0 <= m < q0@.len() && q0@[m].0 == start;
                            assert(q0@[m].0 < q0@[m].1);
                        }
                    }
                    assert(b == start);
                    assert(q1@[k] == Interval(start, finish));
                    assert forall|m: int| 0 <= m < q1@.len() implies #[trigger] q1@[m].1 <= TIME_LIMIT && q1@[m].0 < q1@[m].1 by {
                        if m < k {
                            assert(q1@[m] == q0@[m]);
                        } else if m > k {
                            assert(q1@[m] == q0@[m - 1]);
                        }
                    }
                    assert(holds(q1@, start, finish));
                }
                assert(changed_by(q0, q1, start, finish));
            }
            mapping.push((i, self.elements[j].id));
            i += 1;
        }
        proof {
            assert forall|g: int| 0 <= g < need implies count_where(
                |a: int| guests@[a].kind == #[trigger] guests@[g].kind,
                need as int,
            ) <= count_where(|j: int| old(self).spec_elements()[j].kind == guests@[g].kind, have as int) by {
                let kind = guests@[g].kind;
                let same = |a: int| guests@[a].kind == kind;
                let hosts_of = |j: int| old(self).spec_elements()[j].kind == kind;
                let f = |a: int| found@[a] as int;
                assert forall|x1: int, x2: int| 0 <= x1 < x2 < need && #[trigger] same(x1) && #[trigger] same(x2) implies f(x1) != f(x2) by {
                    assert(found@[x1] != found@[x2]);
                }
                lemma_count_injection(same, need as int, hosts_of, have as int, f);
            }
            assert forall|j: int| 0 <= j < have && !mapped(mapping@, j) implies #[trigger] self.spec_queues()[j] == queues0[j] by {
                if exists|k: int| 0 <= k < need && #[trigger] found@[k] == j {
                    let k = choose|k: int| 0 <= k < need && #[trigger] found@[k] == j;
                    assert(mapping@[k].1 == j);
                }
            }
        }
        Ok(Decision::Accept { start, finish, mapping })
    }

    /// Advance time: every queue forgets what ended by `time`.
    pub fn push(&mut self, time: u64, _data: NoData)
        requires
            old(self).wf(),
        ensures
            final(self).wf(),
            final(self).spec_elements() == old(self).spec_elements(),
            final(self).spec_queues().len() == old(self).spec_queues().len(),
            forall|j: int|
                0 <= j < final(self).spec_queues().len() ==> (#[trigger] final(self).spec_queues()[j])@
                    == crate::queue::ending_after(old(self).spec_queues()[j]@, time as int),
    {
        let mut j: usize = 0;
        while j < self.queues.len()
            invariant
                self.wf(),
                self.spec_elements() == old(self).spec_elements(),
                self.spec_queues().len() == old(self).spec_queues().len(),
                0 <= j <= self.spec_queues().len(),
                forall|k: int|
                    0 <= k < j ==> (#[trigger] self.spec_queues()[k])@ == crate::queue::ending_after(
                        old(self).spec_queues()[k]@,
                        time as int,
                    ),
                forall|k: int| j <= k < self.spec_queues().len() ==> #[trigger] self.spec_queues()[k] == old(self).spec_queues()[k],
            decreases self.spec_queues().len() - j,
        {
            let ghost q0 = self.spec_queues()[j as int];
            self.queues[j].step(time);
            proof {
                lemma_ending_after_subset(q0@, time as int);
            }
            j += 1;
        }
    }

    /// Give each workload element, in order, the first element in `order`
    /// of its kind whose vacancy starts at `start` and that no earlier
    /// workload element took.
    fn assign(&self, guests: &Vec<workload::Element>, intervals: &Vec<Interval>, order: &Vec<usize>, start: u64) -> (r: Option<Vec<usize>>)
        requires
            self.wf(),
            intervals@.len() == self.spec_elements().len(),
            is_permutation(order@, intervals@.len() as int),
        ensures
            r matches Some(found) ==> {
                &&& found@.len() == guests@.len()
                &&& forall|i: int| 0 <= i < found@.len() ==> (#[trigger] found@[i]) < intervals@.len()
                &&& forall|i: int| 0 <= i < found@.len() ==> intervals@[(#[trigger] found@[i]) as int].0 == start
                &&& forall|i: int|
                    0 <= i < found@.len() ==> self.spec_elements()[(#[trigger] found@[i]) as int].kind
                        == guests@[i].kind
                &&& forall|i: int, k: int| 0 <= i < k < found@.len() ==> found@[i] != found@[k]
            },
            r is None ==> exists|i: int| #[trigger] short_at(guests@, self.spec_elements(), intervals@, start, i),
    {
        let have = self.elements.len();
        let need = guests.len();
        let mut found: Vec<usize> = Vec::new();
        let mut busy: Vec<bool> = vec![false; have];
        let mut i: usize = 0;
        while i < need
            invariant
                self.wf(),
                have == self.spec_elements().len(),
                have == intervals@.len(),
                need == guests@.len(),
                is_permutation(order@, have as int),
                busy@.len() == have,
                0 <= i <= need,
                found@.len() == i,
                forall|a: int| 0 <= a < i ==> (#[trigger] found@[a]) < have && busy@[found@[a] as int],
                forall|a: int| 0 <= a < i ==> intervals@[(#[trigger] found@[a]) as int].0 == start,
                forall|a: int|
                    0 <= a < i ==> self.spec_elements()[(#[trigger] found@[a]) as int].kind == guests@[a].kind,
                forall|a: int, k: int| 0 <= a < k < i ==> found@[a] != found@[k],
                forall|j: int| 0 <= j < have && #[trigger] busy@[j] ==> exists|a: int| 0 <= a < i && found@[a] == j,
            decreases need - i,
        {
            let mut hit = false;
            let mut p: usize = 0;
            while p < have
                invariant_except_break
                    !hit,
                    found@.len() == i,
                invariant
                    self.wf(),
                    have == self.spec_elements().len(),
                    have == intervals@.len(),
                    is_permutation(order@, have as int),
                    busy@.len() == have,
                    0 <= i < need,
                    need == guests@.len(),
                    0 <= p <= have,
                    found@.len() <= i + 1,
                    forall|a: int| 0 <= a < found@.len() ==> (#[trigger] found@[a]) < have && busy@[found@[a] as int],
                    forall|a: int| 0 <= a < found@.len() ==> intervals@[(#[trigger] found@[a]) as int].0 == start,
                    forall|a: int|
                        0 <= a < found@.len() ==> self.spec_elements()[(#[trigger] found@[a]) as int].kind == guests@[a].kind,
                    forall|a: int, k: int| 0 <= a < k < found@.len() ==> found@[a] != found@[k],
                    forall|j: int|
                        0 <= j < have && #[trigger] busy@[j] ==> exists|a: int| 0 <= a < found@.len() && found@[a] == j,
                    !hit ==> forall|q: int|
                        0 <= q < p ==> busy@[#[trigger] order@[q] as int] || intervals@[order@[q] as int].0 != start
                            || self.spec_elements()[order@[q] as int].kind != guests@[i as int].kind,
                ensures
                    !hit ==> found@.len() == i,
                    hit ==> found@.len() == i + 1,
                    !hit ==> forall|q: int|
                        0 <= q < have ==> busy@[#[trigger] order@[q] as int] || intervals@[order@[q] as int].0 != start
                            || self.spec_elements()[order@[q] as int].kind != guests@[i as int].kind,
                decreases have - p,
            {
                let j = order[p];
                if !busy[j] && intervals[j].0 == start && guests[i].accept(&self.elements[j]) {
                    let ghost before = found@;
                    found.push(j);
                    busy.set(j, true);
                    hit = true;
                    proof {
                        assert forall|j2: int| 0 <= j2 < have && #[trigger] busy@[j2] implies exists|a: int|
                            0 <= a < found@.len() && found@[a] == j2 by {
                            if j2 == j {
                                assert(found@[i as int] == j);
                            } else {
                                let a = choose|a: int| 0 <= a < before.len() && before[a] == j2;
                                assert(found@[a] == j2);
                            }
                        }
                        assert(found@[i as int] == j);
                        assert(self.spec_elements()[j as int].kind == guests@[i as int].kind);
                        assert forall|a: int| 0 <= a < i implies found@[a] == before[a] && found@[a] != j by {
                            assert(busy@[before[a] as int] || before[a] == j);
                        }
                    }
                    break;
                }
                p += 1;
            }
            if !hit {
                proof {
                    let hosts = self.spec_elements();
                    let kind = guests@[i as int].kind;
                    let avail = |j: int| hosts[j].kind == kind && intervals@[j].0 == start;
                    let earlier = |a: int| guests@[a].kind == kind;
                    let f = |j: int| choose|a: int| 0 <= a < i && found@[a] == j;
                    assert forall|j: int| 0 <= j < have && #[trigger] avail(j) implies 0 <= f(j) < i && earlier(f(j)) by {
                        assert(listed(order@, j));
                        let q = choose|q: int| 0 <= q < order@.len() && #[trigger] order@[q] == j;
                        assert(busy@[order@[q] as int] || intervals@[order@[q] as int].0 != start
                            || hosts[order@[q] as int].kind != kind);
                        assert(busy@[j]);
                        let a = f(j);
                        assert(0 <= a < i && found@[a] == j);
                        assert(hosts[found@[a] as int].kind == guests@[a].kind);
                    }
                    assert forall|j1: int, j2: int| 0 <= j1 < j2 < have && #[trigger] avail(j1) && #[trigger] avail(j2) implies f(j1) != f(j2) by {
                        assert(listed(order@, j1));
                        assert(listed(order@, j2));
                        let q1 = choose|q: int| 0 <= q < order@.len() && #[trigger] order@[q] == j1;
                        let q2 = choose|q: int| 0 <= q < order@.len() && #[trigger] order@[q] == j2;
                        assert(busy@[order@[q1] as int] || intervals@[order@[q1] as int].0 != start
                            || hosts[order@[q1] as int].kind != kind);
                        assert(busy@[order@[q2] as int] || intervals@[order@[q2] as int].0 != start
                            || hosts[order@[q2] as int].kind != kind);
                        assert(found@[f(j1)] == j1);
                        assert(found@[f(j2)] == j2);
                    }
                    lemma_count_injection(avail, have as int, earlier, i as int, f);
                    assert(short_at(guests@, hosts, intervals@, start, i as int));
                }
                return None;
            }
            i += 1;
        }
        Some(found)
    }

    /// Find the earliest start from `from` on at which every workload
    /// element of `guests` gets a vacant element of its kind, and those
    /// elements.
    fn search(&self, guests: &Vec<workload::Element>, from: u64, length: u64) -> (r: Result<(u64, Vec<usize>), Error>)
        requires
            self.wf(),
            self.spec_elements().len() > 0,
            0 < length <= TIME_LIMIT,
            from <= TIME_LIMIT,
        ensures
            r matches Ok((start, found)) ==> {
                &&& from <= start <= TIME_LIMIT
                &&& found@.len() == guests@.len()
                &&& forall|i: int| 0 <= i < found@.len() ==> (#[trigger] found@[i]) < self.spec_elements().len()
                &&& forall|i: int|
                    0 <= i < found@.len() ==> self.spec_elements()[(#[trigger] found@[i]) as int].kind
                        == guests@[i].kind
                &&& forall|i: int, k: int| 0 <= i < k < found@.len() ==> found@[i] != found@[k]
                &&& forall|i: int|
                    0 <= i < found@.len() && self.spec_queues()[(#[trigger] found@[i]) as int].spec_capacity()
                        == ElementCapacity::Single ==> vacant(
                        self.spec_queues()[found@[i] as int]@,
                        start as int,
                        start + length,
                    )
                &&& start == from || ends_at(self.spec_queues(), start)
            },
            r is Err ==> !enough(guests@, self.spec_elements()),
    {
        let have = self.elements.len();
        let mut start = from;
        loop
            invariant
                self.wf(),
                have == self.spec_elements().len(),
                have > 0,
                0 < length <= TIME_LIMIT,
                from <= start <= TIME_LIMIT,
                start == from || ends_at(self.spec_queues(), start),
            decreases TIME_LIMIT - start,
        {
            let intervals = self.vacancies(start, length);
            let order = sort(intervals.as_slice());
            let first = intervals[order[0]].0;
            match self.assign(guests, &intervals, &order, first) {
                Some(found) => {
                    proof {
                        assert forall|i: int|
                            0 <= i < found@.len() && self.spec_queues()[(#[trigger] found@[i]) as int].spec_capacity()
                                == ElementCapacity::Single implies vacant(
                            self.spec_queues()[found@[i] as int]@,
                            first as int,
                            first + length,
                        ) by {
                            let j = found@[i] as int;
                            assert(intervals@[j].0 == first);
                            assert(vacant(self.spec_queues()[j]@, intervals@[j].0 as int, intervals@[j].1 as int));
                        }
                    }
                    proof {
                        let j = order@[0] as int;
                        assert(intervals@[j].0 == first);
                        assert(first == start || ends_at(self.spec_queues(), first));
                    }
                    return Ok((first, found));
                },
                None => {
                    let ghost first_start = start;
                    let mut p: usize = 1;
                    let mut advanced = false;
                    while p < have
                        invariant_except_break
                            !advanced,
                            from <= start <= first,
                            start == first_start,
                            forall|q: int| 1 <= q < p ==> intervals@[#[trigger] order@[q] as int].0 <= first,
                        invariant
                            have == intervals@.len(),
                            is_permutation(order@, have as int),
                            1 <= p <= have,
                            from <= first <= TIME_LIMIT,
                            forall|k: int| 0 <= k < have ==> (#[trigger] intervals@[k]).0 <= TIME_LIMIT,
                        ensures
                            advanced ==> first < start <= TIME_LIMIT,
                            advanced ==> exists|q: int| 0 <= q < have && #[trigger] intervals@[order@[q] as int].0 == start,
                            !advanced ==> forall|q: int| 1 <= q < have ==> intervals@[#[trigger] order@[q] as int].0 <= first,
                        decreases have - p,
                    {
                        let candidate = intervals[order[p]].0;
                        if candidate > first {
                            start = candidate;
                            advanced = true;
                            assert(intervals@[order@[p as int] as int].0 == start);
                            break;
                        }
                        p += 1;
                    }
                    if !advanced {
                        proof {
                            let hosts = self.spec_elements();
                            let i = choose|i: int| #[trigger] short_at(guests@, hosts, intervals@, first, i);
                            let kind = guests@[i].kind;
                            assert forall|j: int| 0 <= j < have implies #[trigger] intervals@[j].0 == first by {
                                assert(listed(order@, j));
                                let q = choose|q: int| 0 <= q < order@.len() && #[trigger] order@[q] == j;
                                if q > 0 {
                                    assert(intervals@[order@[0] as int].0 <= intervals@[order@[q] as int].0);
                                }
                            }
                            let avail = |j: int| hosts[j].kind == kind && intervals@[j].0 == first;
                            let all = |j: int| hosts[j].kind == kind;
                            lemma_count_agree(avail, all, have as int);
                            let earlier = |a: int| guests@[a].kind == kind;
                            lemma_count_grows(earlier, i + 1, guests@.len() as int);
                            assert(count_where(earlier, i + 1) == count_where(earlier, i) + 1);
                            assert(count_where(|a: int| guests@[a].kind == guests@[i].kind, guests@.len() as int)
                                == count_where(earlier, guests@.len() as int));
                            assert(!enough(guests@, hosts));
                        }
                        return Err(Error::new("failed to allocate resources for a job"));
                    }
                    proof {
                        let q = choose|q: int| 0 <= q < have && #[trigger] intervals@[order@[q] as int].0 == start;
                        let j = order@[q] as int;
                        assert(intervals@[j].0 == start);
                    }
                },
            }
        }
    }

    /// Ask every queue for its first vacancy of `length` from `from` on.
    fn vacancies(&self, from: u64, length: u64) -> (r: Vec<Interval>)
        requires
            self.wf(),
            0 < length <= TIME_LIMIT,
            from <= TIME_LIMIT,
        ensures
            r@.len() == self.spec_queues().len(),
            forall|i: int|
                0 <= i < r@.len() ==> from <= (#[trigger] r@[i]).0 <= TIME_LIMIT && r@[i].0 + length <= r@[i].1,
            forall|i: int|
                0 <= i < r@.len() && (#[trigger] self.spec_queues()[i]).spec_capacity() == ElementCapacity::Single
                    ==> vacant(self.spec_queues()[i]@, r@[i].0 as int, r@[i].1 as int),
            forall|i: int| 0 <= i < r@.len() ==> #[trigger] r@[i].0 == from || ends_at(self.spec_queues(), r@[i].0),
    {
        let mut out: Vec<Interval> = Vec::new();
        let mut i: usize = 0;
        while i < self.queues.len()
            invariant
                self.wf(),
                0 < length <= TIME_LIMIT,
                from <= TIME_LIMIT,
                0 <= i <= self.queues@.len(),
                out@.len() == i,
                forall|k: int|
                    0 <= k < i ==> from <= (#[trigger] out@[k]).0 <= TIME_LIMIT && out@[k].0 + length <= out@[k].1,
                forall|k: int|
                    0 <= k < i && (#[trigger] self.queues@[k]).spec_capacity() == ElementCapacity::Single
                        ==> vacant(self.queues@[k]@, out@[k].0 as int, out@[k].1 as int),
                forall|k: int| 0 <= k < i ==> #[trigger] out@[k].0 == from || ends_at(self.queues@, out@[k].0),
            decreases self.queues@.len() - i,
        {
            let queue = &self.queues[i];
            proof {
                assert(self.queues@[i as int] == *queue);
                if queue.spec_capacity() == ElementCapacity::Infinite {
                } else {
                    assert forall|k: int| 0 <= k < queue@.len() implies #[trigger] queue@[k].1 + length <= FOREVER by {
                        assert(queue@[k].1 <= TIME_LIMIT);
                    }
                }
            }
            let hole = queue.next(from, length);
            proof {
                if queue.spec_capacity() == ElementCapacity::Single && hole.0 != from {
                    let k = choose|k: int| 0 <= k < queue@.len() && #[trigger] queue@[k].1 == hole.0;
                    assert(self.queues@[i as int]@[k].1 == hole.0);
                }
            }
            out.push(hole);
            i += 1;
        }
        out
    }
}

} // verus!
