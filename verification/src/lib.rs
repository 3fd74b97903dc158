//! A discrete-event simulation of a multi-server queueing system.
//!
//! Customers arrive, wait in a first-come-first-served queue, are served by
//! one of several identical service windows, and leave. A virtual clock owns
//! simulated time and a registry of pending wake events; the engine advances
//! the clock from event to event, keeping time-weighted statistics exact.

use vstd::prelude::*;

pub mod clock;
pub mod customer;
pub mod event;
pub mod history;
pub mod output;
mod sampling;
pub mod simulation;
pub mod state;
pub mod statistics;

verus! {

/// Upper bound on a single arrival time or service duration, in clock ticks.
/// Keeping individual times under this bound lets every time computed during
/// a run fit comfortably in a `u64`.
pub const MAX_DURATION: u64 = 1_000_000_000_000;

/// Upper bound on the number of customers one simulation can hold.
pub const MAX_CUSTOMERS: usize = 1_000_000;

/// Upper bound on the number of service windows.
pub const MAX_WINDOWS: usize = 1_000_000;

/// Every instant a run can reach is at most `MAX_DURATION * (MAX_CUSTOMERS + 1)`:
/// the clock only ever advances to an arrival time or to a start time plus a
/// service duration, and each service start raises the reachable horizon by at
/// most one more `MAX_DURATION`.
pub const MAX_CLOCK: u64 = 1_000_001_000_000_000_000;

} // verus!
