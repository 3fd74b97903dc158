//! The shared simulation state: customers, live counters and statistics.

use vstd::prelude::*;
use crate::customer::{all_untouched, Customer};
use crate::event::EventType;
use crate::history::HistoryEntry;
use crate::statistics::Statistics;

verus! {

/// Holds the state of the simulation at any point in time.
///
/// The customer list, the live counters and the statistics form one logical
/// aggregate: every transition of the engine updates them together, always
/// snapshotting the time-weighted integrals under the old counters before the
/// counters change.
pub struct SimState {
    pub customers: Vec<Customer>,
    pub waiting_queue_len: usize,
    pub busy_servers: usize,
    pub num_windows: usize,
    pub current_time: u64,
    pub stats: Statistics,
    pub history: Vec<HistoryEntry>,
}

impl SimState {
    /// A state as it stands before a run: no time elapsed, no counters moved,
    /// no service recorded, no history.
    pub open spec fn fresh(&self) -> bool {
        &&& self.waiting_queue_len == 0
        &&& self.busy_servers == 0
        &&& self.current_time == 0
        &&& self.stats.is_zeroed()
        &&& self.history@ == Seq::<HistoryEntry>::empty()
        &&& all_untouched(self.customers@)
    }

    /// Updates the time-weighted integrals under the counters as they stand,
    /// and moves the state's notion of current time up to `now`.
    ///
    /// Must be called before any counter changes, so that the elapsed
    /// interval is accounted under the old state.
    pub fn update_integral(&mut self, now: u64)
        requires
            old(self).stats.queue_length_integral + (now - old(self).stats.last_event_time) * old(self).waiting_queue_len <= u128::MAX,
            old(self).stats.server_busy_integral + (now - old(self).stats.last_event_time) * old(self).busy_servers <= u128::MAX,
        ensures
            now > old(self).stats.last_event_time ==> {
                &&& final(self).stats.queue_length_integral == old(self).stats.queue_length_integral
                    + (now - old(self).stats.last_event_time) * old(self).waiting_queue_len
                &&& final(self).stats.server_busy_integral == old(self).stats.server_busy_integral
                    + (now - old(self).stats.last_event_time) * old(self).busy_servers
                &&& final(self).stats.last_event_time == now
            },
            now <= old(self).stats.last_event_time ==> final(self).stats == old(self).stats,
            final(self).stats.total_wait_time == old(self).stats.total_wait_time,
            final(self).stats.total_service_time == old(self).stats.total_service_time,
            final(self).stats.completed_customers == old(self).stats.completed_customers,
            final(self).stats.max_wait_time == old(self).stats.max_wait_time,
            final(self).stats.max_queue_length == old(self).stats.max_queue_length,
            forall|w: int|
                old(self).busy_servers <= w && old(self).stats.utilization_bounded(w) ==> final(self).stats.utilization_bounded(w),
            forall|b: int|
                old(self).waiting_queue_len <= b && old(self).stats.queue_integral_bounded(b)
                    ==> final(self).stats.queue_integral_bounded(b),
            final(self).current_time == now,
            final(self).customers == old(self).customers,
            final(self).waiting_queue_len == old(self).waiting_queue_len,
            final(self).busy_servers == old(self).busy_servers,
            final(self).num_windows == old(self).num_windows,
            final(self).history == old(self).history,
    {
        let queue_len = self.waiting_queue_len;
        let busy = self.busy_servers;
        self.stats.update_integrals(now, queue_len, busy);
        self.current_time = now;
    }

    /// True when recording `event` for `cust_id` feeds the completion
    /// statistics: a service end of a valid customer whose start and end
    /// times are both on record.
    pub open spec fn records_completion(&self, event: EventType, cust_id: usize) -> bool {
        &&& event == EventType::ServiceEnd
        &&& cust_id < self.customers@.len()
        &&& self.customers@[cust_id as int].service_start_time is Some
        &&& self.customers@[cust_id as int].service_end_time is Some
    }

    /// Records an event in the simulation history.
    ///
    /// Appends one entry carrying the counters as they stand, tracks the
    /// maximum queue length, and — for the service end of a customer whose
    /// start and end times are on record — feeds that customer's wait and
    /// service times into the completion statistics.
    pub fn record_history(&mut self, now: u64, event: EventType, cust_id: usize)
        requires
            old(self).records_completion(event, cust_id) ==> {
                let c = old(self).customers@[cust_id as int];
                &&& c.arrival_time <= c.service_start_time.unwrap()
                &&& c.service_start_time.unwrap() <= c.service_end_time.unwrap()
                &&& old(self).stats.completed_customers < usize::MAX
                &&& old(self).stats.total_wait_time + (c.service_start_time.unwrap()
                    - c.arrival_time) <= u128::MAX
                &&& old(self).stats.total_service_time + (c.service_end_time.unwrap()
                    - c.service_start_time.unwrap()) <= u128::MAX
            },
        ensures
            final(self).history@ == old(self).history@.push(
                HistoryEntry {
                    time: now,
                    event,
                    cust_id,
                    queue_len: old(self).waiting_queue_len,
                    busy_servers: old(self).busy_servers,
                },
            ),
            final(self).stats.max_queue_length == if old(self).waiting_queue_len > old(self).stats.max_queue_length {
                old(self).waiting_queue_len as int
            } else {
                old(self).stats.max_queue_length as int
            },
            old(self).records_completion(event, cust_id) ==> {
                let c = old(self).customers@[cust_id as int];
                &&& final(self).stats.completed_customers == old(self).stats.completed_customers
                    + 1
                &&& final(self).stats.total_wait_time == old(self).stats.total_wait_time + (
                c.service_start_time.unwrap() - c.arrival_time)
                &&& final(self).stats.total_service_time == old(self).stats.total_service_time + (
                c.service_end_time.unwrap() - c.service_start_time.unwrap())
                &&& final(self).stats.max_wait_time == if c.service_start_time.unwrap()
                    - c.arrival_time > old(self).stats.max_wait_time {
                    c.service_start_time.unwrap() - c.arrival_time
                } else {
                    old(self).stats.max_wait_time as int
                }
            },
            !old(self).records_completion(event, cust_id) ==> {
                &&& final(self).stats.completed_customers == old(self).stats.completed_customers
                &&& final(self).stats.total_wait_time == old(self).stats.total_wait_time
                &&& final(self).stats.total_service_time == old(self).stats.total_service_time
                &&& final(self).stats.max_wait_time == old(self).stats.max_wait_time
            },
            final(self).stats.queue_length_integral == old(self).stats.queue_length_integral,
            final(self).stats.server_busy_integral == old(self).stats.server_busy_integral,
            final(self).stats.last_event_time == old(self).stats.last_event_time,
            final(self).customers == old(self).customers,
            final(self).waiting_queue_len == old(self).waiting_queue_len,
            final(self).busy_servers == old(self).busy_servers,
            final(self).num_windows == old(self).num_windows,
            final(self).current_time == old(self).current_time,
    {
        let entry = HistoryEntry {
            time: now,
            event,
            cust_id,
            queue_len: self.waiting_queue_len,
            busy_servers: self.busy_servers,
        };
        self.history.push(entry);

        let queue_len = self.waiting_queue_len;
        self.stats.update_max_queue(queue_len);

        if event == EventType::ServiceEnd && cust_id < self.customers.len() {
            let c = self.customers[cust_id];
            if let (Some(start), Some(end)) = (c.service_start_time, c.service_end_time) {
                let arrival = c.arrival_time;
                let wait_time = start - arrival;
                let service_time = end - start;
                self.stats.record_completion(wait_time, service_time);
            }
        }
    }
}

} // verus!
