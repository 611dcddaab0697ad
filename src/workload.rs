//! Workload patterns and their choice.
use std::rc::Rc;

use vstd::prelude::*;

use crate::element::{self, ElementKind};
use crate::result::Error;
use crate::time::TIME_LIMIT;

verus! {

/// A processing element of a workload pattern.
#[derive(Clone, Debug)]
pub struct Element {
    /// The type.
    pub kind: ElementKind,
    /// The area, in square micrometers.
    pub area: u64,
    /// The leakage power.
    pub leakage_power: u64,
    /// The dynamic power, one value per time step of the pattern.
    pub dynamic_power: Vec<u64>,
}

impl Element {
    /// Check if a processing element of the platform satisfies the
    /// requirements of this workload element.
    pub fn accept(&self, element: &element::Element) -> (r: bool)
        ensures
            r == (self.kind == element.kind),
    {
        self.kind == element.kind
    }
}

/// The content of a workload pattern.
#[derive(Debug)]
pub struct Content {
    /// The name.
    pub name: String,
    /// The number of elements.
    pub units: usize,
    /// The number of time steps.
    pub step_count: usize,
    /// The time step (sampling interval), in ticks.
    pub time_step: u64,
    /// The elements.
    pub elements: Vec<Element>,
}

/// A workload pattern, shared by the jobs that follow it.
#[derive(Debug)]
pub struct Pattern(pub Rc<Content>);

impl Clone for Pattern {
    /// Share the pattern.
    fn clone(&self) -> (r: Pattern)
        ensures
            r == *self,
    {
        Pattern(Rc::clone(&self.0))
    }
}

impl Pattern {
    /// The invariant of a pattern: at least one element and one step, a
    /// positive time step, one dynamic-power value per step for each
    /// element, and a duration within the time limit.
    pub open spec fn wf(&self) -> bool {
        let c = *self.0;
        &&& c.units == c.elements@.len()
        &&& c.units >= 1
        &&& c.step_count >= 1
        &&& c.time_step > 0
        &&& c.step_count * c.time_step <= TIME_LIMIT
        &&& forall|i: int| 0 <= i < c.elements@.len() ==> (#[trigger] c.elements@[i]).dynamic_power@.len() == c.step_count
    }

    /// The duration of the pattern in ticks.
    pub open spec fn spec_duration(&self) -> int {
        self.0.step_count * self.0.time_step
    }

    /// Create a pattern from its elements.
    ///
    /// The step count is the length of the dynamic power of the elements;
    /// a pattern without elements or steps, with a zero time step, with
    /// elements of different lengths, or lasting past the time limit is
    /// refused.
    pub fn new(name: String, time_step: u64, elements: Vec<Element>) -> (r: Result<Pattern, Error>)
        ensures
            match r {
                Ok(p) => {
                    &&& p.wf()
                    &&& p.0.name == name
                    &&& p.0.time_step == time_step
                    &&& p.0.elements == elements
                },
                Err(_) => !pattern_valid(time_step, elements@),
            },
            pattern_valid(time_step, elements@) ==> r is Ok,
    {
        let units = elements.len();
        if units == 0 {
            return Err(Error::new("found a workload pattern without elements"));
        }
        let step_count = elements[0].dynamic_power.len();
        if step_count == 0 {
            return Err(Error::new("found a workload pattern without dynamic-power data"));
        }
        if time_step == 0 {
            return Err(Error::new("found a workload pattern with a zero time step"));
        }
        let mut i: usize = 1;
        while i < units
            invariant
                units == elements@.len(),
                1 <= i <= units,
                step_count == elements@[0].dynamic_power@.len(),
                forall|j: int| 0 <= j < i ==> (#[trigger] elements@[j]).dynamic_power@.len() == step_count,
            decreases units - i,
        {
            if elements[i].dynamic_power.len() != step_count {
                return Err(Error::new("found workload elements of different lengths"));
            }
            i += 1;
        }
        if step_count as u64 > TIME_LIMIT / time_step {
            proof {
                assert((TIME_LIMIT / time_step) * time_step <= TIME_LIMIT) by (nonlinear_arith)
                    requires
                        time_step > 0,
                ;
                assert(step_count * time_step > TIME_LIMIT) by (nonlinear_arith)
                    requires
                        step_count > TIME_LIMIT / time_step,
                        time_step > 0,
                ;
            }
            return Err(Error::new("found a workload pattern that lasts too long"));
        }
        proof {
            assert(step_count * time_step <= TIME_LIMIT) by (nonlinear_arith)
                requires
                    step_count <= TIME_LIMIT / time_step,
                    time_step > 0,
            ;
        }
        Ok(Pattern(Rc::new(Content { name, units, step_count, time_step, elements })))
    }

    /// Return the duration in ticks.
    pub fn duration(&self) -> (r: u64)
        requires
            self.wf(),
        ensures
            r == self.spec_duration(),
    {
        self.0.step_count as u64 * self.0.time_step
    }
}

/// Whether a pattern can be made of elements sampled every `time_step`.
pub open spec fn pattern_valid(time_step: u64, elements: Seq<Element>) -> bool {
    &&& elements.len() >= 1
    &&& elements[0].dynamic_power@.len() >= 1
    &&& time_step > 0
    &&& forall|i: int| 0 <= i < elements.len() ==> (#[trigger] elements[i]).dynamic_power@.len() == elements[0].dynamic_power@.len()
    &&& elements[0].dynamic_power@.len() * time_step <= TIME_LIMIT
}

/// A workload model that chooses among its patterns at random.
///
/// The choice itself is drawn by the caller, uniformly over the catalog,
/// and handed in as an index.
pub struct Random {
    patterns: Vec<Pattern>,
}

impl View for Random {
    type V = Seq<Pattern>;

    /// The catalog.
    closed spec fn view(&self) -> Seq<Pattern> {
        self.patterns@
    }
}

impl Random {
    /// Create a model over a catalog, which must not be empty.
    pub fn new(patterns: Vec<Pattern>) -> (r: Result<Random, Error>)
        ensures
            match r {
                Ok(w) => w@ == patterns@ && patterns@.len() > 0,
                Err(_) => patterns@.len() == 0,
            },
    {
        if patterns.len() == 0 {
            return Err(Error::new("at least one workload pattern is required"));
        }
        Ok(Random { patterns })
    }

    /// Return the number of patterns.
    pub fn len(&self) -> (r: usize)
        ensures
            r == self@.len(),
    {
        self.patterns.len()
    }

    /// Assign the pattern at `choice` to a job that arrives at `time`; the
    /// time is not taken into account.
    pub fn next(&self, _time: u64, choice: usize) -> (r: Pattern)
        requires
            choice < self@.len(),
        ensures
            r == self@[choice as int],
    {
        self.patterns[choice].clone()
    }
}

} // verus!
