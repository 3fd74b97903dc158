//! Customers and the spec-level views of their life cycle.

use vstd::prelude::*;

verus! {

/// One customer of the simulation. Arrival time and service duration are
/// fixed at admission-list construction; the start and end times of service
/// are each set exactly once, in order, while a run executes.
#[derive(Debug, Clone, Copy)]
pub struct Customer {
    pub arrival_time: u64,
    pub service_duration: u64,
    pub service_start_time: Option<u64>,
    pub service_end_time: Option<u64>,
}

impl Customer {
    /// A customer as it stands before a run: no service recorded yet.
    pub open spec fn untouched(self) -> bool {
        &&& self.service_start_time is None
        &&& self.service_end_time is None
    }

    /// Arrival time and service duration within the library's capacity
    /// limits, with a positive service duration.
    pub open spec fn bounded(self) -> bool {
        &&& self.arrival_time <= crate::MAX_DURATION
        &&& 0 < self.service_duration <= crate::MAX_DURATION
    }
}

/// All customers of `cs` are untouched.
pub open spec fn all_untouched(cs: Seq<Customer>) -> bool {
    forall|i: int| 0 <= i < cs.len() ==> (#[trigger] cs[i]).untouched()
}

/// All customers of `cs` are within the capacity limits.
pub open spec fn all_bounded(cs: Seq<Customer>) -> bool {
    forall|i: int| 0 <= i < cs.len() ==> (#[trigger] cs[i]).bounded()
}

/// The customers of `cs` are sorted by arrival time, which the engine
/// requires before a run begins: customers are admitted in list order.
pub open spec fn sorted_by_arrival(cs: Seq<Customer>) -> bool {
    forall|i: int, j: int|
        0 <= i <= j < cs.len() ==> #[trigger] cs[i].arrival_time <= #[trigger] cs[j].arrival_time
}

/// `cs` and `ds` hold the same customers, in the same order, as far as their
/// immutable data goes: only the recorded service times may differ.
pub open spec fn same_admission_data(cs: Seq<Customer>, ds: Seq<Customer>) -> bool {
    &&& cs.len() == ds.len()
    &&& forall|i: int|
        0 <= i < cs.len() ==> {
            &&& (#[trigger] cs[i]).arrival_time == ds[i].arrival_time
            &&& cs[i].service_duration == ds[i].service_duration
        }
}

/// The wait a completed customer contributes to the completion statistics:
/// the time from arrival to service start. A customer still in the system
/// contributes nothing yet.
pub open spec fn wait_of(c: Customer) -> int {
    if c.service_end_time is Some {
        c.service_start_time.unwrap() - c.arrival_time
    } else {
        0
    }
}

/// The service time a completed customer contributes: start to end.
pub open spec fn service_of(c: Customer) -> int {
    if c.service_end_time is Some {
        c.service_end_time.unwrap() - c.service_start_time.unwrap()
    } else {
        0
    }
}

/// How many customers of `cs` have completed service.
pub open spec fn completed_count(cs: Seq<Customer>) -> int
    decreases cs.len(),
{
    if cs.len() == 0 {
        0
    } else {
        completed_count(cs.drop_last()) + if cs.last().service_end_time is Some {
            1int
        } else {
            0int
        }
    }
}

/// The total wait of the completed customers of `cs`.
pub open spec fn total_wait_of(cs: Seq<Customer>) -> int
    decreases cs.len(),
{
    if cs.len() == 0 {
        0
    } else {
        total_wait_of(cs.drop_last()) + wait_of(cs.last())
    }
}

/// The total service time of the completed customers of `cs`.
pub open spec fn total_service_of(cs: Seq<Customer>) -> int
    decreases cs.len(),
{
    if cs.len() == 0 {
        0
    } else {
        total_service_of(cs.drop_last()) + service_of(cs.last())
    }
}

/// The largest wait among the completed customers of `cs`, and zero when
/// none has completed.
pub open spec fn max_wait_of(cs: Seq<Customer>) -> int
    decreases cs.len(),
{
    if cs.len() == 0 {
        0
    } else {
        let m = max_wait_of(cs.drop_last());
        if wait_of(cs.last()) > m {
            wait_of(cs.last())
        } else {
            m
        }
    }
}

/// A list with no completion on record contributes nothing to the
/// completion statistics.
pub proof fn lemma_stats_of_unfinished(cs: Seq<Customer>)
    requires
        forall|i: int| 0 <= i < cs.len() ==> (#[trigger] cs[i]).service_end_time is None,
    ensures
        completed_count(cs) == 0,
        total_wait_of(cs) == 0,
        total_service_of(cs) == 0,
        max_wait_of(cs) == 0,
    decreases cs.len(),
{
    if cs.len() > 0 {
        assert(forall|i: int| 0 <= i < cs.len() - 1 ==> (#[trigger] cs.drop_last()[i]) == cs[i]);
        lemma_stats_of_unfinished(cs.drop_last());
    }
}

/// Replacing one customer shifts each total by exactly the change in that
/// customer's contribution.
pub proof fn lemma_stats_update(cs: Seq<Customer>, j: int, c: Customer)
    requires
        0 <= j < cs.len(),
    ensures
        completed_count(cs.update(j, c)) == completed_count(cs) - (if cs[j].service_end_time
            is Some {
            1int
        } else {
            0int
        }) + (if c.service_end_time is Some {
            1int
        } else {
            0int
        }),
        total_wait_of(cs.update(j, c)) == total_wait_of(cs) - wait_of(cs[j]) + wait_of(c),
        total_service_of(cs.update(j, c)) == total_service_of(cs) - service_of(cs[j]) + service_of(
            c,
        ),
    decreases cs.len(),
{
    let t = cs.update(j, c);
    if j == cs.len() - 1 {
        assert(t.drop_last() =~= cs.drop_last());
    } else {
        assert(t.drop_last() =~= cs.drop_last().update(j, c));
        lemma_stats_update(cs.drop_last(), j, c);
    }
}

/// The largest recorded wait is never negative.
pub proof fn lemma_max_wait_nonneg(cs: Seq<Customer>)
    ensures
        max_wait_of(cs) >= 0,
    decreases cs.len(),
{
    if cs.len() > 0 {
        lemma_max_wait_nonneg(cs.drop_last());
    }
}

/// Replacing a customer who contributed no wait raises the largest recorded
/// wait to the newcomer's wait exactly when that exceeds it, provided no
/// recorded wait is negative.
pub proof fn lemma_max_wait_update(cs: Seq<Customer>, j: int, c: Customer)
    requires
        0 <= j < cs.len(),
        wait_of(cs[j]) == 0,
        wait_of(c) >= 0,
    ensures
        max_wait_of(cs.update(j, c)) == if wait_of(c) > max_wait_of(cs) {
            wait_of(c)
        } else {
            max_wait_of(cs)
        },
    decreases cs.len(),
{
    let t = cs.update(j, c);
    lemma_max_wait_nonneg(cs.drop_last());
    if j == cs.len() - 1 {
        assert(t.drop_last() =~= cs.drop_last());
    } else {
        assert(t.drop_last() =~= cs.drop_last().update(j, c));
        lemma_max_wait_update(cs.drop_last(), j, c);
    }
}

/// How long an admitted customer has sat in the waiting queue, measured up
/// to the instant `t`: from arrival until service starts, or until `t` for a
/// customer still waiting. Meaningful only for admitted customers.
pub open spec fn queued_time_of(c: Customer, t: int) -> int {
    if c.service_start_time is Some {
        c.service_start_time.unwrap() - c.arrival_time
    } else {
        t - c.arrival_time
    }
}

/// How long a customer has occupied a server, measured up to the instant
/// `t`: nothing before service starts, the full service once it has ended,
/// and the time since the start while it is under way.
pub open spec fn busy_time_of(c: Customer, t: int) -> int {
    if c.service_start_time is None {
        0
    } else if c.service_end_time is Some {
        c.service_end_time.unwrap() - c.service_start_time.unwrap()
    } else {
        t - c.service_start_time.unwrap()
    }
}

/// The total queueing time of the customers of `cs`, up to the instant `t`.
pub open spec fn total_queue_time(cs: Seq<Customer>, t: int) -> int
    decreases cs.len(),
{
    if cs.len() == 0 {
        0
    } else {
        total_queue_time(cs.drop_last(), t) + queued_time_of(cs.last(), t)
    }
}

/// The total server occupation of the customers of `cs`, up to the instant
/// `t`.
pub open spec fn total_busy_time(cs: Seq<Customer>, t: int) -> int
    decreases cs.len(),
{
    if cs.len() == 0 {
        0
    } else {
        total_busy_time(cs.drop_last(), t) + busy_time_of(cs.last(), t)
    }
}

/// How many customers of `cs` have no service start on record.
pub open spec fn count_unstarted(cs: Seq<Customer>) -> int
    decreases cs.len(),
{
    if cs.len() == 0 {
        0
    } else {
        count_unstarted(cs.drop_last()) + if cs.last().service_start_time is None {
            1int
        } else {
            0int
        }
    }
}

/// How many customers of `cs` are in service: started but not yet ended.
pub open spec fn count_in_service(cs: Seq<Customer>) -> int
    decreases cs.len(),
{
    if cs.len() == 0 {
        0
    } else {
        count_in_service(cs.drop_last()) + if cs.last().service_start_time is Some
            && cs.last().service_end_time is None {
            1int
        } else {
            0int
        }
    }
}

/// Replacing one customer shifts the two time totals by exactly the change
/// in that customer's contribution.
pub proof fn lemma_flow_update(cs: Seq<Customer>, j: int, c: Customer, t: int)
    requires
        0 <= j < cs.len(),
    ensures
        total_queue_time(cs.update(j, c), t) == total_queue_time(cs, t) - queued_time_of(cs[j], t)
            + queued_time_of(c, t),
        total_busy_time(cs.update(j, c), t) == total_busy_time(cs, t) - busy_time_of(cs[j], t)
            + busy_time_of(c, t),
    decreases cs.len(),
{
    let u = cs.update(j, c);
    if j == cs.len() - 1 {
        assert(u.drop_last() =~= cs.drop_last());
    } else {
        assert(u.drop_last() =~= cs.drop_last().update(j, c));
        lemma_flow_update(cs.drop_last(), j, c, t);
    }
}

/// Moving the measuring instant from `t` to `t2` grows the total queueing
/// time by the elapsed span once per waiting customer, and the total server
/// occupation once per customer in service.
pub proof fn lemma_flow_shift(cs: Seq<Customer>, t: int, t2: int)
    ensures
        total_queue_time(cs, t2) == total_queue_time(cs, t) + (t2 - t) * count_unstarted(cs),
        total_busy_time(cs, t2) == total_busy_time(cs, t) + (t2 - t) * count_in_service(cs),
    decreases cs.len(),
{
    if cs.len() == 0 {
        assert((t2 - t) * 0 == 0) by (nonlinear_arith);
    } else {
        lemma_flow_shift(cs.drop_last(), t, t2);
        let cu = count_unstarted(cs.drop_last());
        let ci = count_in_service(cs.drop_last());
        assert((t2 - t) * (cu + 1) == (t2 - t) * cu + (t2 - t)) by (nonlinear_arith);
        assert((t2 - t) * (ci + 1) == (t2 - t) * ci + (t2 - t)) by (nonlinear_arith);
    }
}

/// Over a list whose started customers form a prefix of length `head` and
/// whose recorded ends all belong to started customers, the waiting count is
/// everything past the prefix and the in-service count is the prefix minus
/// the completed.
pub proof fn lemma_counts_of_prefix_shape(cs: Seq<Customer>, head: int)
    requires
        0 <= head <= cs.len(),
        forall|i: int|
            0 <= i < cs.len() ==> ((#[trigger] cs[i]).service_start_time is Some <==> i < head),
        forall|i: int|
            0 <= i < cs.len() && (#[trigger] cs[i]).service_end_time is Some
                ==> cs[i].service_start_time is Some,
    ensures
        count_unstarted(cs) == cs.len() - head,
        count_in_service(cs) == head - completed_count(cs),
    decreases cs.len(),
{
    if cs.len() > 0 {
        let prefix = cs.drop_last();
        assert(forall|i: int| 0 <= i < prefix.len() ==> #[trigger] prefix[i] == cs[i]);
        if head == cs.len() {
            lemma_counts_of_prefix_shape(prefix, head - 1);
        } else {
            lemma_counts_of_prefix_shape(prefix, head);
        }
    }
}

/// Customers who have not started occupy no server, whatever the instant.
pub proof fn lemma_busy_time_of_unstarted(cs: Seq<Customer>, t: int)
    requires
        forall|i: int| 0 <= i < cs.len() ==> (#[trigger] cs[i]).service_start_time is None,
    ensures
        total_busy_time(cs, t) == 0,
    decreases cs.len(),
{
    if cs.len() > 0 {
        assert(forall|i: int| 0 <= i < cs.len() - 1 ==> (#[trigger] cs.drop_last()[i]) == cs[i]);
        lemma_busy_time_of_unstarted(cs.drop_last(), t);
    }
}

/// How many customers of `cs` arrive at or before `limit`. Because the engine
/// admits customers in arrival order and stops producing at the first arrival
/// past the run's time limit, this is exactly the number admitted by a
/// truncated run over a sorted list.
pub open spec fn count_arrivals_by(cs: Seq<Customer>, limit: u64) -> int
    decreases cs.len(),
{
    if cs.len() == 0 {
        0
    } else {
        count_arrivals_by(cs.drop_last(), limit) + if cs.last().arrival_time <= limit {
            1int
        } else {
            0int
        }
    }
}

/// Over a sorted list, a position whose prefix all arrives by `limit` and
/// which itself (if it exists) arrives after `limit` is exactly
/// `count_arrivals_by`.
pub proof fn lemma_count_arrivals_by_prefix(cs: Seq<Customer>, limit: u64, k: int)
    requires
        sorted_by_arrival(cs),
        0 <= k <= cs.len(),
        forall|i: int| 0 <= i < k ==> #[trigger] cs[i].arrival_time <= limit,
        k < cs.len() ==> cs[k].arrival_time > limit,
    ensures
        count_arrivals_by(cs, limit) == k,
    decreases cs.len(),
{
    if cs.len() > 0 {
        let prefix = cs.drop_last();
        if k == cs.len() {
            lemma_count_arrivals_by_prefix(prefix, limit, k - 1);
        } else {
            assert(cs.last().arrival_time > limit) by {
                assert(cs[k].arrival_time <= cs[cs.len() - 1].arrival_time);
            }
            lemma_count_arrivals_by_prefix(prefix, limit, k);
        }
    }
}

} // verus!
