//! Synthesis of power and temperature profiles of a multiprocessor platform
//! running a stream of jobs.
//!
//! Jobs arrive from a stream of arrival times, take a workload pattern from a
//! catalog, and are placed by a scheduler on the platform's elements at the
//! earliest time when enough suitable elements are vacant together. The
//! platform keeps a dense grid of the power its elements draw: the leakage
//! of each element in every row, and the dynamic power of each job deposited
//! onto the rows it overlaps so that energy is kept. The system emits the
//! arrivals, starts and finishes in order of time, each with the power
//! profile of the whole steps since the previous event.
//!
//! Time is measured in ticks, unsigned integers of a unit that the caller
//! picks; power is an unsigned integer as well, and a cell of a profile holds
//! energy, power times ticks.
use vstd::prelude::*;

mod arith;
pub mod element;
pub mod job;
pub mod platform;
pub mod profile;
pub mod queue;
pub mod result;
pub mod schedule;
pub mod system;
pub mod time;
pub mod traffic;
pub mod workload;

pub use result::Error;

verus! {

} // verus!
