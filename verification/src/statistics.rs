//! Running statistics of a simulation, accumulated incrementally.

use vstd::prelude::*;

verus! {

/// Tracks running statistics for the simulation.
///
/// The tracker is mutated only through incremental operations — integral
/// accumulation, completion recording and the monotone maximum updates — and
/// never recomputed from raw history. The two integrals are time-weighted:
/// each accumulation adds the elapsed time multiplied by the counter as it
/// stood over that elapsed interval.
#[derive(Debug)]
pub struct Statistics {
    /// Sum of (service start − arrival) over completed customers.
    pub total_wait_time: u128,
    /// Sum of (service end − service start) over completed customers.
    pub total_service_time: u128,
    /// Number of customers whose service has ended.
    pub completed_customers: usize,
    /// Time-weighted integral of the waiting-queue length.
    pub queue_length_integral: u128,
    /// Time-weighted integral of the number of busy servers.
    pub server_busy_integral: u128,
    /// Largest wait recorded by a completion.
    pub max_wait_time: u64,
    /// Largest queue length ever handed to `update_max_queue`.
    pub max_queue_length: usize,
    /// The instant up to which the integrals have been accumulated.
    pub last_event_time: u64,
}

impl Statistics {
    /// Every counter at zero.
    pub open spec fn is_zeroed(self) -> bool {
        &&& self.total_wait_time == 0
        &&& self.total_service_time == 0
        &&& self.completed_customers == 0
        &&& self.queue_length_integral == 0
        &&& self.server_busy_integral == 0
        &&& self.max_wait_time == 0
        &&& self.max_queue_length == 0
        &&& self.last_event_time == 0
    }

    /// The busy-server integral never exceeds `windows` per unit of time, so
    /// utilization — the integral divided by elapsed time times `windows` —
    /// stays within [0, 1].
    pub open spec fn utilization_bounded(self, windows: int) -> bool {
        self.server_busy_integral <= self.last_event_time * windows
    }

    /// The queue-length integral never exceeds `bound` per unit of time.
    pub open spec fn queue_integral_bounded(self, bound: int) -> bool {
        self.queue_length_integral <= self.last_event_time * bound
    }

    /// Creates a new tracker with every counter at zero.
    pub fn new() -> (r: Statistics)
        ensures
            r.is_zeroed(),
    {
        Statistics {
            total_wait_time: 0,
            total_service_time: 0,
            completed_customers: 0,
            queue_length_integral: 0,
            server_busy_integral: 0,
            max_wait_time: 0,
            max_queue_length: 0,
            last_event_time: 0,
        }
    }

    /// Updates the time-weighted integrals.
    ///
    /// Let `dt = now − last_event_time`. If `dt > 0`, adds `dt * queue_len`
    /// to the queue-length integral and `dt * busy_servers` to the busy-server
    /// integral, then moves `last_event_time` up to `now`. If `dt <= 0` the
    /// call changes nothing, which makes repeated or out-of-order calls at
    /// one instant harmless.
    pub fn update_integrals(&mut self, now: u64, queue_len: usize, busy_servers: usize)
        requires
            old(self).queue_length_integral + (now - old(self).last_event_time) * queue_len
                <= u128::MAX,
            old(self).server_busy_integral + (now - old(self).last_event_time) * busy_servers
                <= u128::MAX,
        ensures
            now > old(self).last_event_time ==> {
                &&& final(self).queue_length_integral == old(self).queue_length_integral + (now - old(
                    self,
                ).last_event_time) * queue_len
                &&& final(self).server_busy_integral == old(self).server_busy_integral + (now - old(
                    self,
                ).last_event_time) * busy_servers
                &&& final(self).last_event_time == now
            },
            now <= old(self).last_event_time ==> *final(self) == *old(self),
            final(self).total_wait_time == old(self).total_wait_time,
            final(self).total_service_time == old(self).total_service_time,
            final(self).completed_customers == old(self).completed_customers,
            final(self).max_wait_time == old(self).max_wait_time,
            final(self).max_queue_length == old(self).max_queue_length,
            forall|w: int|
                busy_servers <= w && old(self).utilization_bounded(w)
                    ==> final(self).utilization_bounded(w),
            forall|b: int|
                queue_len <= b && old(self).queue_integral_bounded(b)
                    ==> final(self).queue_integral_bounded(b),
            final(self).queue_length_integral >= old(self).queue_length_integral,
            final(self).server_busy_integral >= old(self).server_busy_integral,
            final(self).last_event_time >= old(self).last_event_time,
    {
        if now > self.last_event_time {
            let time_passed: u64 = now - self.last_event_time;
            proof {
                assert((time_passed as int) * (queue_len as int) >= 0) by (nonlinear_arith);
                assert((time_passed as int) * (busy_servers as int) >= 0) by (nonlinear_arith);
                let ghost t = time_passed as int;
                let ghost q = queue_len as int;
                let ghost b = busy_servers as int;
                let ghost last = self.last_event_time as int;
                assert forall|w: int| b <= w && old(self).utilization_bounded(w) implies
                    old(self).server_busy_integral + t * b <= now * w by {
                    assert(t * b <= t * w && last * w + t * w == now * w) by (nonlinear_arith)
                        requires
                            0 <= t,
                            0 <= b <= w,
                            last + t == now,
                    ;
                }
                assert forall|w: int| q <= w && old(self).queue_integral_bounded(w) implies
                    old(self).queue_length_integral + t * q <= now * w by {
                    assert(t * q <= t * w && last * w + t * w == now * w) by (nonlinear_arith)
                        requires
                            0 <= t,
                            0 <= q <= w,
                            last + t == now,
                    ;
                }
            }
            self.queue_length_integral = self.queue_length_integral + (time_passed as u128) * (
            queue_len as u128);
            self.server_busy_integral = self.server_busy_integral + (time_passed as u128) * (
            busy_servers as u128);
            self.last_event_time = now;
        }
    }

    /// Records a completed customer's wait and service times.
    pub fn record_completion(&mut self, wait_time: u64, service_time: u64)
        requires
            old(self).completed_customers < usize::MAX,
            old(self).total_wait_time + wait_time <= u128::MAX,
            old(self).total_service_time + service_time <= u128::MAX,
        ensures
            final(self).total_wait_time == old(self).total_wait_time + wait_time,
            final(self).total_service_time == old(self).total_service_time + service_time,
            final(self).completed_customers == old(self).completed_customers + 1,
            final(self).max_wait_time == if wait_time > old(self).max_wait_time {
                wait_time
            } else {
                old(self).max_wait_time
            },
            final(self).queue_length_integral == old(self).queue_length_integral,
            final(self).server_busy_integral == old(self).server_busy_integral,
            final(self).max_queue_length == old(self).max_queue_length,
            final(self).last_event_time == old(self).last_event_time,
            final(self).total_wait_time >= old(self).total_wait_time,
            final(self).total_service_time >= old(self).total_service_time,
            final(self).max_wait_time >= old(self).max_wait_time,
    {
        self.total_wait_time = self.total_wait_time + wait_time as u128;
        self.total_service_time = self.total_service_time + service_time as u128;
        self.completed_customers = self.completed_customers + 1;
        if wait_time > self.max_wait_time {
            self.max_wait_time = wait_time;
        }
    }

    /// Raises the recorded maximum queue length if the current length
    /// exceeds it.
    pub fn update_max_queue(&mut self, current_queue_len: usize)
        ensures
            final(self).max_queue_length == if current_queue_len > old(self).max_queue_length {
                current_queue_len as int
            } else {
                old(self).max_queue_length as int
            },
            final(self).total_wait_time == old(self).total_wait_time,
            final(self).total_service_time == old(self).total_service_time,
            final(self).completed_customers == old(self).completed_customers,
            final(self).queue_length_integral == old(self).queue_length_integral,
            final(self).server_busy_integral == old(self).server_busy_integral,
            final(self).max_wait_time == old(self).max_wait_time,
            final(self).last_event_time == old(self).last_event_time,
            final(self).max_queue_length >= old(self).max_queue_length,
    {
        if current_queue_len > self.max_queue_length {
            self.max_queue_length = current_queue_len;
        }
    }
}

impl Default for Statistics {
    /// Same as `Statistics::new`.
    fn default() -> (r: Statistics)
        ensures
            r.is_zeroed(),
    {
        Statistics::new()
    }
}

} // verus!
