//! Jobs.
use vstd::prelude::*;

use crate::workload::Pattern;

verus! {

/// An identifier of a job.
#[derive(Clone, Copy, Debug, PartialEq, Eq, Structural)]
pub struct ID(pub usize);

impl ID {
    /// Return the number.
    pub fn number(&self) -> (r: usize)
        ensures
            r == self.0,
    {
        self.0
    }
}

/// A job.
#[derive(Debug)]
pub struct Job {
    /// The identifier.
    pub id: ID,
    /// The arrival time.
    pub arrival: u64,
    /// The workload pattern.
    pub pattern: Pattern,
}

impl Clone for Job {
    /// Copy the job, sharing its pattern.
    fn clone(&self) -> (r: Job)
        ensures
            r == *self,
    {
        Job { id: self.id, arrival: self.arrival, pattern: self.pattern.clone() }
    }
}

impl Job {
    /// Create a job.
    pub fn new(id: ID, arrival: u64, pattern: Pattern) -> (r: Job)
        ensures
            r == (Job { id, arrival, pattern }),
    {
        Job { id, arrival, pattern }
    }
}

} // verus!
