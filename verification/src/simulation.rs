//! The discrete-event simulation engine.
//!
//! One producer admits customers in arrival order, and each of several server
//! windows serves one admitted customer at a time; a driver loop advances the
//! virtual clock from wake event to wake event until the run finishes, hits
//! its time limit, or provably has nothing left to do. All concurrency is
//! logical: the producer and the servers are explicit tasks multiplexed on
//! the clock's wake-event registry, resumed in deterministic order.

use vstd::prelude::*;
use crate::clock::{SimClock, WakeEvent};
use crate::customer::{
    all_bounded, completed_count, count_arrivals_by, max_wait_of, same_admission_data,
    sorted_by_arrival, total_busy_time, total_queue_time, total_service_of, total_wait_of,
    Customer,
};
use crate::history::{count_events, history_ordered, max_queue_of};
use crate::state::SimState;
use crate::statistics::Statistics;

verus! {

/// How many customers a run admits: all of them when it has no time limit,
/// and exactly those arriving by the limit when it has one, because the
/// producer admits customers in arrival order and stops at the first arrival
/// past the limit.
pub open spec fn admitted_count(cs: Seq<Customer>, max_time: Option<u64>) -> int {
    match max_time {
        Some(limit) => count_arrivals_by(cs, limit),
        None => cs.len() as int,
    }
}

/// The smaller of two instants is the floor a start time cannot go below.
pub open spec fn seq_min(s: Seq<int>) -> int
    recommends
        s.len() > 0,
    decreases s.len(),
{
    if s.len() <= 1 {
        s[0]
    } else {
        let m = seq_min(s.drop_last());
        if s.last() < m {
            s.last()
        } else {
            m
        }
    }
}

/// `seq_min` bounds every element from below and is attained.
pub proof fn lemma_seq_min(s: Seq<int>)
    requires
        s.len() > 0,
    ensures
        forall|i: int| 0 <= i < s.len() ==> seq_min(s) <= #[trigger] s[i],
        exists|i: int| 0 <= i < s.len() && #[trigger] s[i] == seq_min(s),
    decreases s.len(),
{
    if s.len() <= 1 {
        assert(s[0] == seq_min(s));
    } else {
        let prefix = s.drop_last();
        lemma_seq_min(prefix);
        assert(forall|i: int| 0 <= i < prefix.len() ==> prefix[i] == #[trigger] s[i]);
        if s.last() < seq_min(prefix) {
            assert(s[s.len() - 1] == seq_min(s));
        } else {
            let w = choose|i: int| 0 <= i < prefix.len() && #[trigger] prefix[i] == seq_min(prefix);
            assert(s[w] == seq_min(s));
        }
    }
}

/// The first index whose value is at most `v`: the window a newly started
/// customer takes, among those free by its start time.
pub open spec fn first_free_slot(s: Seq<int>, v: int) -> int
    decreases s.len(),
{
    if s.len() == 0 {
        0
    } else if s[0] <= v {
        0
    } else {
        1 + first_free_slot(s.drop_first(), v)
    }
}

/// `first_free_slot` picks exactly the first index at or below `v`.
pub proof fn lemma_first_free_slot(s: Seq<int>, v: int, j: int)
    requires
        0 <= j < s.len(),
        s[j] <= v,
        forall|t: int| 0 <= t < j ==> #[trigger] s[t] > v,
    ensures
        first_free_slot(s, v) == j,
    decreases s.len(),
{
    if j > 0 {
        let rest = s.drop_first();
        assert(forall|t: int| 0 <= t < rest.len() ==> #[trigger] rest[t] == s[t + 1]);
        lemma_first_free_slot(rest, v, j - 1);
    }
}

/// The first-come-first-served schedule over `w` identical windows: the
/// instants at which each window becomes free once the first `k` customers
/// of `cs` have been assigned, all windows starting free at time zero. Each
/// customer in turn starts at the later of its arrival and the earliest
/// window-free instant, and occupies the first window free by that start.
pub open spec fn fcfs_free(cs: Seq<Customer>, k: int, w: nat) -> Seq<int>
    decreases k,
{
    if k <= 0 {
        Seq::new(w, |i: int| 0int)
    } else {
        let prev = fcfs_free(cs, k - 1, w);
        let start = if cs[k - 1].arrival_time > seq_min(prev) {
            cs[k - 1].arrival_time as int
        } else {
            seq_min(prev)
        };
        prev.update(first_free_slot(prev, start), start + cs[k - 1].service_duration)
    }
}

/// When customer `i` of `cs` starts service under the first-come-first-served
/// schedule over `w` windows: the later of its arrival and the earliest
/// window-free instant.
pub open spec fn fcfs_start(cs: Seq<Customer>, i: int, w: nat) -> int {
    let prev = fcfs_free(cs, i, w);
    if cs[i].arrival_time > seq_min(prev) {
        cs[i].arrival_time as int
    } else {
        seq_min(prev)
    }
}

/// A recorded entry corresponds to the customer it names: an arrival entry
/// carries the customer's arrival time and names an admitted customer, a
/// service-start entry carries the customer's stamped start, and a
/// service-end entry carries its stamped end.
pub open spec fn entry_matches(
    e: crate::history::HistoryEntry,
    cs: Seq<Customer>,
    next: int,
    head: int,
) -> bool {
    &&& e.cust_id < cs.len()
    &&& e.event == crate::event::EventType::Arrival ==> e.cust_id < next && cs[e.cust_id as int].arrival_time == e.time
    &&& e.event == crate::event::EventType::ServiceStart ==> e.cust_id < head && cs[e.cust_id as int].service_start_time == Some(e.time)
    &&& e.event == crate::event::EventType::ServiceEnd ==> e.cust_id < head && cs[e.cust_id as int].service_end_time == Some(e.time)
        && cs[e.cust_id as int].service_start_time is Some
}

/// How many server slots are occupied.
pub open spec fn count_some(s: Seq<Option<usize>>) -> int
    decreases s.len(),
{
    if s.len() == 0 {
        0
    } else {
        count_some(s.drop_last()) + if s.last() is Some {
            1int
        } else {
            0int
        }
    }
}

proof fn lemma_count_some_bounds(s: Seq<Option<usize>>)
    ensures
        0 <= count_some(s) <= s.len(),
    decreases s.len(),
{
    if s.len() > 0 {
        lemma_count_some_bounds(s.drop_last());
    }
}

proof fn lemma_count_some_update(s: Seq<Option<usize>>, i: int, v: Option<usize>)
    requires
        0 <= i < s.len(),
    ensures
        count_some(s.update(i, v)) == count_some(s) - (if s[i] is Some {
            1int
        } else {
            0int
        }) + (if v is Some {
            1int
        } else {
            0int
        }),
    decreases s.len(),
{
    let t = s.update(i, v);
    if i == s.len() - 1 {
        assert(t.drop_last() =~= s.drop_last());
    } else {
        assert(t.drop_last() =~= s.drop_last().update(i, v));
        lemma_count_some_update(s.drop_last(), i, v);
    }
}

proof fn lemma_count_some_all_none(s: Seq<Option<usize>>)
    requires
        forall|i: int| 0 <= i < s.len() ==> (#[trigger] s[i]) is None,
    ensures
        count_some(s) == 0,
    decreases s.len(),
{
    if s.len() > 0 {
        assert(forall|i: int|
            0 <= i < s.len() - 1 ==> (#[trigger] s.drop_last()[i]) == s[i]);
        lemma_count_some_all_none(s.drop_last());
    }
}

proof fn lemma_count_some_all_some(s: Seq<Option<usize>>)
    requires
        forall|i: int| 0 <= i < s.len() ==> (#[trigger] s[i]) is Some,
    ensures
        count_some(s) == s.len(),
    decreases s.len(),
{
    if s.len() > 0 {
        assert(forall|i: int|
            0 <= i < s.len() - 1 ==> (#[trigger] s.drop_last()[i]) == s[i]);
        lemma_count_some_all_some(s.drop_last());
    }
}

/// Customer `id` is being served by some window.
pub open spec fn served_by(serving: Seq<Option<usize>>, id: int) -> bool {
    exists|s: int| 0 <= s < serving.len() && (#[trigger] serving[s]) == Some(id as usize)
}

/// No two pending wake events belong to the same task.
pub open spec fn tasks_distinct(p: Seq<WakeEvent>) -> bool {
    forall|i: int, j: int|
        0 <= i < j < p.len() ==> (#[trigger] p[i]).task != (#[trigger] p[j]).task
}

/// Some pending event belongs to task `t`.
pub open spec fn has_task(p: Seq<WakeEvent>, t: usize) -> bool {
    exists|i: int| 0 <= i < p.len() && (#[trigger] p[i]).task == t
}

/// What `SimClock::advance` hands back, restated for a registry whose events
/// belong to distinct tasks: the kept events still belong to distinct tasks
/// and come from the old registry, the woken task list has no duplicates and
/// holds exactly the tasks whose events were due at `d`, and no kept event
/// belongs to a woken task.
proof fn lemma_advance_partition(p: Seq<WakeEvent>, d: u64)
    requires
        tasks_distinct(p),
    ensures
        ({
            let kept = p.filter(|e: WakeEvent| e.deadline != d);
            let woken = p.filter(|e: WakeEvent| e.deadline == d).map_values(|e: WakeEvent| e.task);
            &&& tasks_distinct(kept)
            &&& forall|i: int| 0 <= i < kept.len() ==> p.contains(#[trigger] kept[i])
            &&& woken.no_duplicates()
            &&& forall|t: usize|
                #[trigger] woken.contains(t) <==> exists|j: int|
                    0 <= j < p.len() && (#[trigger] p[j]).deadline == d && p[j].task == t
            &&& forall|i: int|
                0 <= i < kept.len() ==> !woken.contains((#[trigger] kept[i]).task)
        }),
    decreases p.len(),
{
    reveal(Seq::filter);
    let kept = p.filter(|e: WakeEvent| e.deadline != d);
    let woken_ev = p.filter(|e: WakeEvent| e.deadline == d);
    let woken = woken_ev.map_values(|e: WakeEvent| e.task);
    if p.len() == 0 {
        assert(kept.len() == 0);
        assert(woken.len() == 0);
        assert forall|t: usize| #[trigger] woken.contains(t) <==> exists|j: int|
            0 <= j < p.len() && (#[trigger] p[j]).deadline == d && p[j].task == t by {
            assert(!woken.contains(t));
        }
    } else {
        let q = p.drop_last();
        let e = p.last();
        assert(forall|i: int| 0 <= i < q.len() ==> (#[trigger] q[i]) == p[i]);
        lemma_advance_partition(q, d);
        let kept_q = q.filter(|ev: WakeEvent| ev.deadline != d);
        let woken_ev_q = q.filter(|ev: WakeEvent| ev.deadline == d);
        let woken_q = woken_ev_q.map_values(|ev: WakeEvent| ev.task);
        if e.deadline != d {
            assert(kept =~= kept_q.push(e));
            assert(woken_ev =~= woken_ev_q);
            assert(woken =~= woken_q);
        } else {
            assert(kept =~= kept_q);
            assert(woken_ev =~= woken_ev_q.push(e));
            assert(woken =~= woken_q.push(e.task));
        }
        // A task seen among q's kept or woken events names an event of q,
        // whose task differs from e.task because p's tasks are distinct.
        assert forall|i: int| 0 <= i < kept_q.len() implies (#[trigger] kept_q[i]).task
            != e.task by {
            let j = choose|j: int| 0 <= j < q.len() && #[trigger] q[j] == kept_q[i];
            assert(p[j] == kept_q[i]);
        }
        assert forall|t: usize| #[trigger] woken_q.contains(t) implies t != e.task by {
            let j = choose|j: int|
                0 <= j < q.len() && (#[trigger] q[j]).deadline == d && q[j].task == t;
            assert(p[j].task == t);
        }
        if e.deadline == d {
            assert forall|i: int, j: int|
                0 <= i < woken.len() && 0 <= j < woken.len() && i != j implies woken[i]
                != woken[j] by {
                let last = woken.len() - 1;
                if i < last && j < last {
                    assert(woken[i] == woken_q[i]);
                    assert(woken[j] == woken_q[j]);
                } else if i == last {
                    assert(woken[j] == woken_q[j]);
                    assert(woken_q.contains(woken_q[j]));
                    assert(woken[i] == e.task);
                } else {
                    assert(woken[i] == woken_q[i]);
                    assert(woken_q.contains(woken_q[i]));
                    assert(woken[j] == e.task);
                }
            }
        }
        assert forall|t: usize| #[trigger] woken.contains(t) implies exists|j: int|
            0 <= j < p.len() && (#[trigger] p[j]).deadline == d && p[j].task == t by {
            let k = choose|k: int| 0 <= k < woken.len() && #[trigger] woken[k] == t;
            if e.deadline == d && k == woken.len() - 1 {
                assert(p[p.len() - 1].deadline == d && p[p.len() - 1].task == t);
            } else {
                assert(woken_q.contains(t));
                let j = choose|j: int|
                    0 <= j < q.len() && (#[trigger] q[j]).deadline == d && q[j].task == t;
                assert(p[j].deadline == d && p[j].task == t);
            }
        }
        assert forall|t: usize|
            (exists|j: int| 0 <= j < p.len() && (#[trigger] p[j]).deadline == d && p[j].task == t)
            implies #[trigger] woken.contains(t) by {
            let j = choose|j: int|
                0 <= j < p.len() && (#[trigger] p[j]).deadline == d && p[j].task == t;
            if j == p.len() - 1 {
                assert(woken[woken.len() - 1] == t);
            } else {
                assert(q[j].deadline == d && q[j].task == t);
                assert(woken_q.contains(t));
                let k = choose|k: int| 0 <= k < woken_q.len() && #[trigger] woken_q[k] == t;
                assert(woken[k] == t);
            }
        }
        assert forall|i: int| 0 <= i < kept.len() implies !woken.contains(
            (#[trigger] kept[i]).task,
        ) by {
            if woken.contains(kept[i].task) {
                let ti = kept[i].task;
                let j = choose|j: int|
                    0 <= j < p.len() && (#[trigger] p[j]).deadline == d && p[j].task == ti;
                if e.deadline != d && i == kept.len() - 1 {
                    // kept[i] is e itself; the witness j names an event of q.
                    assert(q[j].task == e.task);
                    assert(false);
                } else {
                    assert(kept_q[i] == kept[i]);
                    if j == p.len() - 1 {
                        assert(kept_q[i].task != e.task);
                        assert(false);
                    } else {
                        assert(woken_q.contains(q[j].task));
                        assert(false);
                    }
                }
            }
        }
    }
}

/// Removing the first element of the suffix `s.skip(k)` from its set of
/// members leaves exactly the members of `s.skip(k + 1)`, when `s` has no
/// duplicates.
proof fn lemma_skip_remove(s: Seq<usize>, k: int)
    requires
        s.no_duplicates(),
        0 <= k < s.len(),
    ensures
        s.skip(k).to_set().contains(s[k]),
        s.skip(k).to_set().remove(s[k]) =~= s.skip(k + 1).to_set(),
{
    assert(s.skip(k)[0] == s[k]);
    assert(s.skip(k).contains(s[k]));
    assert forall|t: usize| s.skip(k + 1).to_set().contains(t) implies s.skip(k).to_set().remove(
        s[k],
    ).contains(t) by {
        let j = choose|j: int| 0 <= j < s.skip(k + 1).len() && #[trigger] s.skip(k + 1)[j] == t;
        assert(s[k + 1 + j] == t);
        assert(s.skip(k)[j + 1] == t);
        assert(t != s[k]);
    }
    assert forall|t: usize| s.skip(k).to_set().remove(s[k]).contains(t) implies s.skip(
        k + 1,
    ).to_set().contains(t) by {
        let j = choose|j: int| 0 <= j < s.skip(k).len() && #[trigger] s.skip(k)[j] == t;
        assert(s[k + j] == t);
        assert(j != 0);
        assert(s.skip(k + 1)[j - 1] == t);
        assert(s.skip(k + 1).contains(t));
    }
}

/// The engine of one run: the clock and state of the simulation together
/// with the runtime bookkeeping of its logical tasks — the admission channel,
/// the position of the next customer to start service, what each server
/// window is doing, and whether the producer has stopped early.
///
/// Task numbering on the clock: task 0 is the arrival producer; task `s + 1`
/// is server window `s`.
struct Engine {
    clock: SimClock,
    state: SimState,
    /// The admission channel: ids sent so far, in order; ids before `head`
    /// have been received by a server, ids from `head` on are waiting.
    chan: Vec<usize>,
    head: usize,
    /// What each server window is doing: the id it is serving, if any.
    serving: Vec<Option<usize>>,
    /// The producer stopped early because the next arrival lies beyond the
    /// run's time limit.
    producer_done: bool,
    max_time: Option<u64>,
    /// The customer list as it stood when the run began.
    cs0: Ghost<Seq<Customer>>,
    /// The instant each window becomes (or became) free: the service end of
    /// the customer it is serving, or a past instant while it sits idle.
    /// This is the run's live image of the schedule's window-free instants.
    free: Ghost<Seq<int>>,
}

impl Engine {
    spec fn cs(&self) -> Seq<Customer> {
        self.state.customers@
    }

    spec fn n(&self) -> int {
        self.cs().len() as int
    }

    /// How many customers have been admitted (sent on the channel) so far.
    spec fn next(&self) -> int {
        self.chan@.len() as int
    }

    spec fn now(&self) -> u64 {
        self.clock.spec_now()
    }

    /// The producer still has a customer to admit.
    spec fn active(&self) -> bool {
        !self.producer_done && self.next() < self.n()
    }

    /// Event `e` stands for a live suspension: the producer sleeping until
    /// the next arrival, or a server sleeping until its service ends.
    spec fn valid_token(&self, e: WakeEvent) -> bool {
        if e.task == 0 {
            &&& self.active()
            &&& e.deadline == self.cs()[self.next()].arrival_time
        } else {
            &&& 1 <= e.task <= self.serving@.len()
            &&& self.serving@[e.task - 1] is Some
            &&& {
                let id = self.serving@[e.task - 1].unwrap() as int;
                e.deadline == self.cs()[id].service_start_time.unwrap() + self.cs()[id].service_duration
            }
        }
    }

    /// A task just popped from the registry is due exactly now.
    spec fn detached_due(&self, t: usize) -> bool {
        if t == 0 {
            &&& self.active()
            &&& self.cs()[self.next()].arrival_time == self.now()
        } else {
            &&& 1 <= t <= self.serving@.len()
            &&& self.serving@[t - 1] is Some
            &&& {
                let id = self.serving@[t - 1].unwrap() as int;
                self.cs()[id].service_start_time.unwrap() + self.cs()[id].service_duration
                    == self.now()
            }
        }
    }

    /// The engine's invariant, between steps. `detached` is the set of tasks
    /// that `advance` has popped from the registry but the engine has not
    /// processed yet; at every loop boundary it is empty.
    spec fn inv(&self, detached: Set<usize>) -> bool {
        let cs = self.cs();
        let n = self.n();
        let next = self.next();
        let head = self.head as int;
        let serving = self.serving@;
        let now = self.now();
        let p = self.clock.pending();
        // structure
        &&& crate::customer::same_admission_data(cs, self.cs0@)
        &&& sorted_by_arrival(self.cs0@)
        &&& all_bounded(self.cs0@)
        &&& n <= crate::MAX_CUSTOMERS
        &&& 1 <= self.state.num_windows <= crate::MAX_WINDOWS
        &&& serving.len() == self.state.num_windows
        &&& 0 <= head <= next <= n
        &&& forall|i: int| 0 <= i < next ==> #[trigger] self.chan@[i] == i
        &&& self.state.waiting_queue_len == next - head
        &&& self.state.busy_servers == count_some(serving)
        &&& self.state.stats.completed_customers + self.state.busy_servers == head
        // customer phases
        &&& forall|id: int| next <= id < n ==> (#[trigger] cs[id]).untouched()
        &&& forall|id: int|
            head <= id < next ==> (#[trigger] cs[id]).untouched() && cs[id].arrival_time <= now
        &&& forall|id: int|
            0 <= id < head ==> (#[trigger] cs[id]).service_start_time is Some && cs[id].arrival_time <= cs[id].service_start_time.unwrap() && cs[id].service_start_time.unwrap() <= now
        &&& forall|id: int|
            0 <= id < head ==> ((#[trigger] cs[id]).service_end_time is Some <==> !served_by(
                serving,
                id,
            ))
        &&& forall|id: int|
            0 <= id < head && (#[trigger] cs[id]).service_end_time is Some ==> cs[id].service_end_time.unwrap() == cs[id].service_start_time.unwrap() + cs[id].service_duration && cs[id].service_end_time.unwrap() <= now
        &&& forall|i: int, j: int|
            0 <= i <= j < head ==> (#[trigger] cs[i]).service_start_time.unwrap() <= (
            #[trigger] cs[j]).service_start_time.unwrap()
        &&& self.max_time is Some ==> forall|id: int|
            0 <= id < next ==> (#[trigger] cs[id]).arrival_time <= self.max_time.unwrap()
        // serving slots
        &&& forall|s: int|
            0 <= s < serving.len() && (#[trigger] serving[s]) is Some ==> serving[s].unwrap()
                < head
        &&& forall|s1: int, s2: int|
            0 <= s1 < serving.len() && 0 <= s2 < serving.len() && s1 != s2 && (
            #[trigger] serving[s1]) is Some && (#[trigger] serving[s2]) is Some ==> serving[s1].unwrap() != serving[s2].unwrap()
        // the first-come-first-served schedule
        &&& self.free@.len() == serving.len()
        &&& forall|s: int|
            0 <= s < serving.len() && (#[trigger] serving[s]) is Some ==> {
                let id = serving[s].unwrap() as int;
                self.free@[s] == cs[id].service_start_time.unwrap() + cs[id].service_duration
            }
        &&& forall|s: int|
            0 <= s < serving.len() && (#[trigger] serving[s]) is None ==> self.free@[s] <= now
        &&& self.free@ == fcfs_free(self.cs0@, head, serving.len() as nat)
        &&& forall|i: int|
            0 <= i < head ==> (#[trigger] cs[i]).service_start_time.unwrap() == fcfs_start(
                self.cs0@,
                i,
                serving.len() as nat,
            )
        // producer flag
        &&& self.producer_done ==> self.max_time is Some && next < n && cs[next].arrival_time
            > self.max_time.unwrap()
        &&& self.active() && self.max_time is Some ==> cs[next].arrival_time
            <= self.max_time.unwrap()
        // clock and tokens
        &&& self.clock.wf()
        &&& tasks_distinct(p)
        &&& forall|i: int| 0 <= i < p.len() ==> self.valid_token(#[trigger] p[i])
        &&& forall|i: int| 0 <= i < p.len() ==> !detached.contains((#[trigger] p[i]).task)
        &&& self.active() && !detached.contains(0usize) ==> has_task(p, 0)
        &&& forall|s: int|
            0 <= s < serving.len() && (#[trigger] serving[s]) is Some && !detached.contains(
                (s + 1) as usize,
            ) ==> has_task(p, (s + 1) as usize)
        &&& forall|t: usize| #[trigger] detached.contains(t) ==> self.detached_due(t)
        // time and statistics
        &&& self.state.current_time == self.state.stats.last_event_time
        &&& self.state.stats.last_event_time <= now
        &&& detached.is_empty() ==> self.state.stats.last_event_time == now
        &&& self.state.stats.utilization_bounded(self.state.num_windows as int)
        &&& self.state.stats.queue_integral_bounded(crate::MAX_CUSTOMERS as int)
        &&& self.state.stats.total_wait_time <= self.state.stats.completed_customers * (
        crate::MAX_CLOCK as int)
        &&& self.state.stats.total_service_time <= self.state.stats.completed_customers * (
        crate::MAX_CLOCK as int)
        &&& self.state.stats.completed_customers == completed_count(cs)
        &&& self.state.stats.total_wait_time == total_wait_of(cs)
        &&& self.state.stats.total_service_time == total_service_of(cs)
        &&& self.state.stats.max_wait_time == max_wait_of(cs)
        &&& self.state.stats.queue_length_integral == total_queue_time(
            cs.take(next),
            self.state.stats.last_event_time as int,
        )
        &&& self.state.stats.server_busy_integral == total_busy_time(
            cs,
            self.state.stats.last_event_time as int,
        )
        &&& now <= crate::MAX_DURATION * (1 + head)
        &&& forall|i: int|
            0 <= i < p.len() ==> (#[trigger] p[i]).deadline <= crate::MAX_DURATION * (1 + head)
        // history
        &&& history_ordered(self.state.history@)
        &&& forall|k: int|
            0 <= k < self.state.history@.len() ==> (#[trigger] self.state.history@[k]).time <= now
        &&& count_events(self.state.history@, crate::event::EventType::Arrival) == next
        &&& count_events(self.state.history@, crate::event::EventType::ServiceStart) == head
        &&& count_events(self.state.history@, crate::event::EventType::ServiceEnd)
            == self.state.stats.completed_customers
        &&& self.state.stats.max_queue_length == max_queue_of(self.state.history@)
        &&& self.state.history@.len() > 0 ==> self.state.history@.last().time
            == self.state.stats.last_event_time
        &&& forall|e: int|
            0 <= e < self.state.history@.len() ==> entry_matches(
                #[trigger] self.state.history@[e],
                cs,
                next,
                head,
            )
        &&& forall|e: int|
            0 <= e < self.state.history@.len() ==> (#[trigger] self.state.history@[e]).queue_len
                == count_events(self.state.history@.take(e + 1), crate::event::EventType::Arrival)
                - count_events(
                self.state.history@.take(e + 1),
                crate::event::EventType::ServiceStart,
            ) && self.state.history@[e].busy_servers == count_events(
                self.state.history@.take(e + 1),
                crate::event::EventType::ServiceStart,
            ) - count_events(self.state.history@.take(e + 1), crate::event::EventType::ServiceEnd)
        &&& forall|e1: int, e2: int|
            0 <= e1 < e2 < self.state.history@.len() && (#[trigger] self.state.history@[e1]).event
                == (#[trigger] self.state.history@[e2]).event ==> self.state.history@[e1].cust_id
                != self.state.history@[e2].cust_id
    }

    /// Work remaining: three steps for a customer not yet admitted, one for
    /// each waiting customer, one for each service in progress, and one for a
    /// producer that still has something to do. Every woken task strictly
    /// decreases it.
    spec fn measure(&self) -> int {
        3 * (self.n() - self.next()) + (self.next() - self.head as int) + count_some(self.serving@)
            + if self.active() {
            1int
        } else {
            0int
        }
    }

    /// The producer task, resumed at the arrival time of the next customer:
    /// admits that customer and every later one due at the same instant, then
    /// either suspends until the next arrival, stops producing because that
    /// arrival lies past the run's time limit, or finishes.
    ///
    /// Admission sends the customer id on the channel, snapshots the
    /// integrals at the arrival time, grows the waiting queue, and records
    /// the arrival.
    #[verifier::rlimit(80)]
    fn producer_step(&mut self, Ghost(detached): Ghost<Set<usize>>)
        requires
            old(self).inv(detached),
            detached.contains(0usize),
        ensures
            final(self).inv(detached.remove(0usize)),
            final(self).now() == old(self).now(),
            final(self).head == old(self).head,
            final(self).serving@ == old(self).serving@,
            final(self).state.customers@ == old(self).state.customers@,
            final(self).state.busy_servers == old(self).state.busy_servers,
            final(self).state.num_windows == old(self).state.num_windows,
            final(self).max_time == old(self).max_time,
            final(self).cs0 == old(self).cs0,
            final(self).next() > old(self).next(),
            final(self).measure() < old(self).measure(),
            final(self).free == old(self).free,
            forall|i: int|
                old(self).next() <= i < final(self).next() ==> (
                #[trigger] final(self).cs0@[i]).arrival_time == old(self).now(),
    {
        let ghost pre = *self;
        let now = self.clock.now();
        loop
            invariant_except_break
                self.inv(detached),
                detached.contains(0usize),
                now == self.now(),
                self.now() == pre.now(),
                self.head == pre.head,
                self.serving@ == pre.serving@,
                self.state.customers@ == pre.state.customers@,
                self.state.busy_servers == pre.state.busy_servers,
                self.state.num_windows == pre.state.num_windows,
                self.max_time == pre.max_time,
                self.cs0 == pre.cs0,
                self.producer_done == pre.producer_done,
                self.clock.pending() == pre.clock.pending(),
                self.next() >= pre.next(),
                self.measure() <= pre.measure(),
                self.free == pre.free,
                forall|i: int|
                    pre.next() <= i < self.next() ==> (#[trigger] self.cs0@[i]).arrival_time
                        == pre.now(),
            ensures
                self.inv(detached.remove(0usize)),
                self.now() == pre.now(),
                self.head == pre.head,
                self.serving@ == pre.serving@,
                self.state.customers@ == pre.state.customers@,
                self.state.busy_servers == pre.state.busy_servers,
                self.state.num_windows == pre.state.num_windows,
                self.max_time == pre.max_time,
                self.cs0 == pre.cs0,
                self.next() > pre.next(),
                self.measure() < pre.measure(),
                self.free == pre.free,
                forall|i: int|
                    pre.next() <= i < self.next() ==> (#[trigger] self.cs0@[i]).arrival_time
                        == pre.now(),
            decreases self.n() - self.next(),
        {
            // The next customer is due now: send its id, snapshot the
            // integrals at the arrival time, and only then move the counters
            // and record the event.
            let id = self.chan.len();
            let ghost inv_before = *self;
            proof {
                assert(self.detached_due(0usize));
                lemma_now_capped(now, self.head as int);
                lemma_count_some_bounds(self.serving@);
                lemma_integral_fits(
                    self.state.stats,
                    now,
                    self.state.waiting_queue_len,
                    self.state.busy_servers,
                    self.state.num_windows as int,
                );
            }
            self.chan.push(id);
            self.state.update_integral(now);
            self.state.waiting_queue_len = self.state.waiting_queue_len + 1;
            self.state.record_history(now, crate::event::EventType::Arrival, id);
            proof {
                assert(forall|i: int|
                    0 <= i < inv_before.next() ==> #[trigger] self.chan@[i] == inv_before.chan@[i]);
                assert(forall|k: int|
                    0 <= k < inv_before.state.history@.len()
                        ==> #[trigger] self.state.history@[k]
                        == inv_before.state.history@[k]);
                assert(self.state.history@.drop_last() =~= inv_before.state.history@);
                let h1 = self.state.history@;
                let h0 = inv_before.state.history@;
                assert forall|j: int| 0 <= j <= h0.len() implies h1.take(j) == h0.take(j) by {
                    assert(h1.take(j) =~= h0.take(j));
                }
                assert(h1.take(h1.len() as int) =~= h1);
                // The integral snapshot moves both time-weighted totals up to
                // now — once per waiting customer and once per busy server —
                // and the new admission contributes no queue time yet.
                let csq = self.cs();
                let next0 = inv_before.next();
                let last0 = inv_before.state.stats.last_event_time;
                let prefix = csq.take(next0);
                assert(forall|i: int| 0 <= i < next0 ==> #[trigger] prefix[i] == csq[i]);
                crate::customer::lemma_counts_of_prefix_shape(prefix, self.head as int);
                crate::customer::lemma_flow_shift(prefix, last0 as int, now as int);
                crate::customer::lemma_counts_of_prefix_shape(csq, self.head as int);
                crate::customer::lemma_flow_shift(csq, last0 as int, now as int);
                assert(csq.take(next0 + 1).drop_last() =~= prefix);
                assert(csq.take(next0 + 1).last() == csq[next0]);
                assert(crate::customer::queued_time_of(csq[next0], now as int) == 0);
            }

            if self.chan.len() == self.state.customers.len() {
                // Everyone is admitted: the producer is finished.
                break;
            }
            let a = self.state.customers[self.chan.len()].arrival_time;
            let mut stop = false;
            if let Some(limit) = self.max_time {
                if a > limit {
                    // The next arrival lies past the time limit: stop
                    // producing; the remaining customers are never admitted.
                    self.producer_done = true;
                    stop = true;
                }
            }
            if stop {
                break;
            }
            if a > now {
                // Suspend until the next arrival.
                let ghost before_sleep = *self;
                let registered = self.clock.sleep_until(a, 0);
                proof {
                    assert(registered);
                    let p0 = before_sleep.clock.pending();
                    let p1 = self.clock.pending();
                    assert(p1.len() == p0.len() + 1);
                    assert(forall|i: int| 0 <= i < p0.len() ==> #[trigger] p1[i] == p0[i]);
                    assert(p1[p0.len() as int].task == 0);
                    assert(p1[p0.len() as int].deadline == a);
                    assert forall|i: int, j: int| 0 <= i < j < p1.len() implies (
                    #[trigger] p1[i]).task != (#[trigger] p1[j]).task by {
                        if j == p0.len() {
                            // The new event is task 0; no old event has task
                            // 0, because task 0 is detached.
                            assert(!detached.contains(p0[i].task));
                        }
                    }
                    assert forall|i: int| 0 <= i < p1.len() implies self.valid_token(
                        #[trigger] p1[i],
                    ) by {
                        if i < p0.len() {
                            assert(before_sleep.valid_token(p0[i]));
                            assert(!detached.contains(p0[i].task));
                        }
                    }
                    assert(has_task(p1, 0));
                    assert forall|s: int|
                        0 <= s < self.serving@.len() && (#[trigger] self.serving@[s]) is Some
                            && !detached.remove(0usize).contains((s + 1) as usize) implies
                        has_task(p1, (s + 1) as usize) by {
                        assert(has_task(p0, (s + 1) as usize));
                        let w = choose|w: int|
                            0 <= w < p0.len() && (#[trigger] p0[w]).task == (s + 1) as usize;
                        assert(p1[w].task == (s + 1) as usize);
                    }
                    assert(a <= crate::MAX_DURATION) by {
                        assert(self.cs0@[self.next()].arrival_time == a);
                        assert(self.cs0@[self.next()].bounded());
                    }
                    assert((crate::MAX_DURATION as int) * (1 + self.head as int)
                        >= crate::MAX_DURATION) by (nonlinear_arith)
                        requires
                            self.head >= 0,
                    ;
                }
                break;
            }
            // The next customer arrives at this very instant (arrivals are
            // sorted, so an arrival at or before now is an arrival at now):
            // admit it in the same step.
            proof {
                let cs = self.cs();
                assert(cs[self.next() - 1].arrival_time == now);
                assert(cs[self.next()].arrival_time >= cs[self.next() - 1].arrival_time);
            }
        }
    }

    /// Server window `s`, idle, receives the customer at the head of the
    /// admission channel and starts serving it: snapshot the integrals, then
    /// move the counters — the queue decrement is guarded so it can never
    /// underflow — stamp the start time, record the event, and suspend until
    /// the service ends.
    #[verifier::rlimit(80)]
    fn start_service(&mut self, s: usize)
        requires
            old(self).inv(Set::empty()),
            (old(self).head as int) < old(self).next(),
            s < old(self).serving@.len(),
            old(self).serving@[s as int] is None,
            forall|t: int| 0 <= t < s ==> (#[trigger] old(self).serving@[t]) is Some,
            old(self).cs0@[old(self).head as int].arrival_time == old(self).now() || (forall|
                t: int,
            |
                0 <= t < old(self).serving@.len() && (#[trigger] old(self).serving@[t]) is None
                    ==> old(self).free@[t] == old(self).now()),
        ensures
            final(self).inv(Set::empty()),
            final(self).now() == old(self).now(),
            final(self).measure() == old(self).measure(),
            final(self).head == old(self).head + 1,
            final(self).chan@ == old(self).chan@,
            final(self).n() == old(self).n(),
            final(self).producer_done == old(self).producer_done,
            final(self).state.num_windows == old(self).state.num_windows,
            final(self).max_time == old(self).max_time,
            final(self).cs0 == old(self).cs0,
            final(self).serving@.len() == old(self).serving@.len(),
            final(self).serving@[s as int] is Some,
            forall|t: int|
                0 <= t < final(self).serving@.len() && t != s ==> final(self).serving@[t] == old(self).serving@[t] && final(self).free@[t] == old(self).free@[t],
        {
        let ghost pre = *self;
        let id = self.chan[self.head];
        let now = self.clock.now();
        proof {
            assert(id == self.head);
            lemma_now_capped(now, self.head as int);
            lemma_count_some_bounds(self.serving@);
            lemma_integral_fits(
                self.state.stats,
                now,
                self.state.waiting_queue_len,
                self.state.busy_servers,
                self.state.num_windows as int,
            );
            // The idle slot keeps the busy count strictly under the number
            // of windows.
            lemma_count_some_update(self.serving@, s as int, Some(id));
            lemma_count_some_bounds(self.serving@.update(s as int, Some(id)));
        }
        self.state.update_integral(now);
        self.state.busy_servers = self.state.busy_servers + 1;
        if self.state.waiting_queue_len > 0 {
            self.state.waiting_queue_len = self.state.waiting_queue_len - 1;
        }
        set_start_time(&mut self.state.customers, id, now);
        self.state.record_history(now, crate::event::EventType::ServiceStart, id);
        let ghost serving0 = self.serving@;
        self.serving[s] = Some(id);
        let duration = self.state.customers[id].service_duration;
        proof {
            lemma_count_some_update(serving0, s as int, Some(id));
            assert(self.cs0@[id as int].bounded());
            assert(duration <= crate::MAX_DURATION);
            assert((crate::MAX_DURATION as int) * (1 + self.head as int) + crate::MAX_DURATION
                == (crate::MAX_DURATION as int) * (2 + self.head as int)) by (nonlinear_arith);
            assert((crate::MAX_DURATION as int) * (2 + self.head as int)
                <= (crate::MAX_DURATION as int) * (1 + crate::MAX_CUSTOMERS))
                by (nonlinear_arith)
                requires
                    2 + self.head <= 1 + crate::MAX_CUSTOMERS,
            ;
        }
        let ghost before_sleep = *self;
        let registered = self.clock.sleep(duration, s + 1);
        proof {
            self.free@ = self.free@.update(s as int, now as int + duration as int);
        }
        self.head = self.head + 1;
        proof {
            assert(registered);
            let cs = self.cs();
            let p0 = before_sleep.clock.pending();
            let p1 = self.clock.pending();
            assert(p1.len() == p0.len() + 1);
            assert(forall|i: int| 0 <= i < p0.len() ==> #[trigger] p1[i] == p0[i]);
            assert(p1[p0.len() as int].task == s + 1);
            assert(p1[p0.len() as int].deadline == now + duration);
            assert(cs == pre.cs().update(id as int, cs[id as int]));
            assert(forall|i: int|
                0 <= i < cs.len() && i != id ==> #[trigger] cs[i] == pre.cs()[i]);
            assert(self.state.history@.drop_last() =~= pre.state.history@);
            let h1 = self.state.history@;
            let h0 = pre.state.history@;
            assert forall|j: int| 0 <= j <= h0.len() implies h1.take(j) == h0.take(j) by {
                assert(h1.take(j) =~= h0.take(j));
            }
            assert(h1.take(h1.len() as int) =~= h1);
            // Old entries still match their customers: only this customer's
            // start was stamped, and no earlier entry refers to it except its
            // arrival, whose time is immutable.
            assert forall|e: int| 0 <= e < h0.len() implies entry_matches(
                #[trigger] h1[e],
                cs,
                self.next(),
                self.head as int,
            ) by {
                assert(h1[e] == h0[e]);
                assert(entry_matches(h0[e], pre.cs(), pre.next(), pre.head as int));
                let cust = h0[e].cust_id as int;
                if cust != id {
                    assert(cs[cust] == pre.cs()[cust]);
                }
            }
            // Stamping a start leaves the completion statistics untouched.
            crate::customer::lemma_stats_update(pre.cs(), id as int, cs[id as int]);
            crate::customer::lemma_max_wait_update(pre.cs(), id as int, cs[id as int]);
            // The start is stamped with the very instant up to which the
            // integrals are accounted, so neither time total moves.
            let next = self.next();
            let prefix = pre.cs().take(next);
            assert(forall|i: int| 0 <= i < next ==> #[trigger] prefix[i] == pre.cs()[i]);
            assert(cs.take(next) =~= prefix.update(id as int, cs[id as int]));
            crate::customer::lemma_flow_update(prefix, id as int, cs[id as int], now as int);
            crate::customer::lemma_flow_update(pre.cs(), id as int, cs[id as int], now as int);
            assert(crate::customer::queued_time_of(prefix[id as int], now as int)
                == crate::customer::queued_time_of(cs[id as int], now as int));
            assert(crate::customer::busy_time_of(pre.cs()[id as int], now as int) == 0);
            assert(crate::customer::busy_time_of(cs[id as int], now as int) == 0);
            // No old event belongs to this window: its slot was idle.
            assert forall|i: int| 0 <= i < p0.len() implies (#[trigger] p0[i]).task != s + 1 by {
                assert(pre.valid_token(p0[i]));
            }
            assert forall|i: int, j: int| 0 <= i < j < p1.len() implies (#[trigger] p1[i]).task
                != (#[trigger] p1[j]).task by {
                if j == p0.len() {
                    assert(p0[i].task != s + 1);
                }
            }
            assert forall|i: int| 0 <= i < p1.len() implies self.valid_token(
                #[trigger] p1[i],
            ) by {
                if i < p0.len() {
                    assert(pre.valid_token(p0[i]));
                    if p0[i].task != 0 {
                        let t = p0[i].task;
                        assert(pre.serving@[t - 1] is Some);
                        assert(self.serving@[t - 1] == pre.serving@[t - 1]);
                        let sid = pre.serving@[t - 1].unwrap() as int;
                        assert(sid != id);
                        assert(cs[sid] == pre.cs()[sid]);
                    }
                } else {
                    assert(self.serving@[s as int] == Some(id));
                    assert(cs[id as int].service_start_time == Some(now));
                }
            }
            // Presence of every busy window's wake event.
            assert forall|t: int|
                0 <= t < self.serving@.len() && (#[trigger] self.serving@[t]) is Some implies
                has_task(p1, (t + 1) as usize) by {
                if t == s {
                    assert(p1[p0.len() as int].task == (t + 1) as usize);
                } else {
                    assert(pre.serving@[t] is Some);
                    assert(has_task(p0, (t + 1) as usize));
                    let w = choose|w: int|
                        0 <= w < p0.len() && (#[trigger] p0[w]).task == (t + 1) as usize;
                    assert(p1[w].task == (t + 1) as usize);
                }
            }
            if self.active() {
                assert(has_task(p0, 0));
                let w = choose|w: int| 0 <= w < p0.len() && (#[trigger] p0[w]).task == 0;
                assert(p1[w].task == 0);
            }
            // Serving a new id keeps the slots distinct and keeps the
            // served-by relation of every other customer unchanged.
            assert forall|other: int|
                0 <= other < self.head && other != id implies (served_by(self.serving@, other)
                <==> served_by(pre.serving@, other)) by {
                if served_by(pre.serving@, other) {
                    let w = choose|w: int|
                        0 <= w < pre.serving@.len() && (#[trigger] pre.serving@[w]) == Some(
                            other as usize,
                        );
                    assert(self.serving@[w] == Some(other as usize));
                }
                if served_by(self.serving@, other) {
                    let w = choose|w: int|
                        0 <= w < self.serving@.len() && (#[trigger] self.serving@[w]) == Some(
                            other as usize,
                        );
                    assert(w != s);
                    assert(pre.serving@[w] == Some(other as usize));
                }
            }
            assert(served_by(self.serving@, id as int)) by {
                assert(self.serving@[s as int] == Some(id));
            }
            // The newly started customer keeps the start times monotone.
            assert forall|i: int, j: int| 0 <= i <= j < self.head as int implies (
            #[trigger] cs[i]).service_start_time.unwrap() <= (
            #[trigger] cs[j]).service_start_time.unwrap() by {
                if j == id {
                    if i < id {
                        assert(pre.cs()[i].service_start_time.unwrap() <= now);
                    }
                }
            }
            // This start is exactly the schedule's next assignment: every
            // busy window frees strictly later than now, so the dispatch
            // instant is the later of the customer's arrival and the
            // earliest window-free instant, and the window taken is the
            // first one free by then.
            let prev = pre.free@;
            let w = prev.len() as nat;
            assert forall|t: int|
                0 <= t < pre.serving@.len() && (#[trigger] pre.serving@[t]) is Some implies prev[t]
                > now by {
                assert(has_task(p0, (t + 1) as usize));
                let ev = choose|ev: int|
                    0 <= ev < p0.len() && (#[trigger] p0[ev]).task == (t + 1) as usize;
                assert(pre.valid_token(p0[ev]));
            }
            lemma_seq_min(prev);
            assert(pre.cs()[id as int].arrival_time == pre.cs0@[id as int].arrival_time);
            if pre.cs0@[id as int].arrival_time == now {
                assert(prev[s as int] <= now);
                assert(seq_min(prev) <= now);
            } else {
                assert(prev[s as int] == now);
                let wmin = choose|wmin: int|
                    0 <= wmin < prev.len() && #[trigger] prev[wmin] == seq_min(prev);
                if pre.serving@[wmin] is Some {
                    assert(prev[wmin] > now);
                    assert(seq_min(prev) <= prev[s as int]);
                    assert(false);
                } else {
                    assert(prev[wmin] == now);
                }
                assert(seq_min(prev) == now);
            }
            assert(fcfs_start(pre.cs0@, id as int, w) == now);
            assert forall|t: int| 0 <= t < s implies #[trigger] prev[t] > now by {
                assert(pre.serving@[t] is Some);
            }
            lemma_first_free_slot(prev, now as int, s as int);
            assert(fcfs_free(pre.cs0@, id as int + 1, w) == prev.update(
                s as int,
                now + pre.cs0@[id as int].service_duration,
            ));
            assert(pre.cs0@[id as int].service_duration == duration);
            assert(self.free@ == fcfs_free(self.cs0@, self.head as int, w));
        }
    }

    /// Server window `s`, woken because its service ends now: snapshot the
    /// integrals, release the server, stamp the end time, and record the
    /// service end, which feeds the completion statistics.
    #[verifier::rlimit(80)]
    fn finish_service(&mut self, s: usize, Ghost(detached): Ghost<Set<usize>>)
        requires
            old(self).inv(detached),
            s < old(self).serving@.len(),
            detached.contains((s + 1) as usize),
            s + 1 <= usize::MAX,
        ensures
            final(self).inv(detached.remove((s + 1) as usize)),
            final(self).now() == old(self).now(),
            final(self).head == old(self).head,
            final(self).chan@ == old(self).chan@,
            final(self).n() == old(self).n(),
            final(self).producer_done == old(self).producer_done,
            final(self).state.num_windows == old(self).state.num_windows,
            final(self).max_time == old(self).max_time,
            final(self).cs0 == old(self).cs0,
            final(self).measure() < old(self).measure(),
            final(self).free == old(self).free,
            final(self).serving@ == old(self).serving@.update(s as int, None),
            old(self).free@[s as int] == old(self).now(),
    {
        let ghost pre = *self;
        proof {
            assert(pre.detached_due((s + 1) as usize));
            // The freed window's free instant is exactly this service's end,
            // which is due now.
            assert(pre.free@[s as int] == pre.now());
        }
        let id = self.serving[s].unwrap();
        let now = self.clock.now();
        proof {
            lemma_now_capped(now, self.head as int);
            lemma_count_some_bounds(self.serving@);
            lemma_integral_fits(
                self.state.stats,
                now,
                self.state.waiting_queue_len,
                self.state.busy_servers,
                self.state.num_windows as int,
            );
            // The busy slot keeps the busy count positive.
            lemma_count_some_update(self.serving@, s as int, None);
            lemma_count_some_bounds(self.serving@.update(s as int, None));
            // The wait and the service time both fit in the running totals.
            let c = self.cs()[id as int];
            assert(c.service_start_time.unwrap() + c.service_duration == now);
            assert(c.service_duration >= 1) by {
                assert(self.cs0@[id as int].bounded());
            }
            lemma_total_fits(
                self.state.stats.total_wait_time,
                self.state.stats.completed_customers,
                (c.service_start_time.unwrap() - c.arrival_time) as u64,
            );
            lemma_total_fits(
                self.state.stats.total_service_time,
                self.state.stats.completed_customers,
                (now - c.service_start_time.unwrap()) as u64,
            );
        }
        self.state.update_integral(now);
        self.state.busy_servers = self.state.busy_servers - 1;
        set_end_time(&mut self.state.customers, id, now);
        self.state.record_history(now, crate::event::EventType::ServiceEnd, id);
        let ghost serving0 = self.serving@;
        self.serving[s] = None;
        proof {
            lemma_count_some_update(serving0, s as int, None);
            let cs = self.cs();
            let p = self.clock.pending();
            assert(forall|i: int|
                0 <= i < cs.len() && i != id ==> #[trigger] cs[i] == pre.cs()[i]);
            assert(cs[id as int].service_end_time == Some(now));
            assert(self.state.history@.drop_last() =~= pre.state.history@);
            let h1 = self.state.history@;
            let h0 = pre.state.history@;
            assert forall|j: int| 0 <= j <= h0.len() implies h1.take(j) == h0.take(j) by {
                assert(h1.take(j) =~= h0.take(j));
            }
            assert(h1.take(h1.len() as int) =~= h1);
            // Old entries still match their customers: only this customer's
            // end was stamped, and no earlier end entry refers to it.
            assert forall|e: int| 0 <= e < h0.len() implies entry_matches(
                #[trigger] h1[e],
                cs,
                self.next(),
                self.head as int,
            ) by {
                assert(h1[e] == h0[e]);
                assert(entry_matches(h0[e], pre.cs(), pre.next(), pre.head as int));
                let cust = h0[e].cust_id as int;
                if cust != id {
                    assert(cs[cust] == pre.cs()[cust]);
                }
            }
            // Stamping the end moves exactly this customer's wait and
            // service time into the completion statistics.
            assert(cs == pre.cs().update(id as int, cs[id as int]));
            crate::customer::lemma_stats_update(pre.cs(), id as int, cs[id as int]);
            crate::customer::lemma_max_wait_update(pre.cs(), id as int, cs[id as int]);
            // The integral snapshot moves both time totals up to now; the end
            // stamp then freezes this customer's occupation at exactly the
            // time it has held a server.
            let next = self.next();
            let last0 = pre.state.stats.last_event_time;
            let prefix = pre.cs().take(next);
            assert(forall|i: int| 0 <= i < next ==> #[trigger] prefix[i] == pre.cs()[i]);
            crate::customer::lemma_counts_of_prefix_shape(prefix, self.head as int);
            crate::customer::lemma_flow_shift(prefix, last0 as int, now as int);
            crate::customer::lemma_counts_of_prefix_shape(pre.cs(), self.head as int);
            crate::customer::lemma_flow_shift(pre.cs(), last0 as int, now as int);
            assert(cs.take(next) =~= prefix.update(id as int, cs[id as int]));
            crate::customer::lemma_flow_update(prefix, id as int, cs[id as int], now as int);
            crate::customer::lemma_flow_update(pre.cs(), id as int, cs[id as int], now as int);
            assert(crate::customer::queued_time_of(prefix[id as int], now as int)
                == crate::customer::queued_time_of(cs[id as int], now as int));
            assert(crate::customer::busy_time_of(pre.cs()[id as int], now as int)
                == crate::customer::busy_time_of(cs[id as int], now as int));
            assert forall|i: int| 0 <= i < p.len() implies self.valid_token(#[trigger] p[i]) by {
                assert(pre.valid_token(p[i]));
                assert(!detached.contains(p[i].task));
                if p[i].task != 0 {
                    let t = p[i].task;
                    assert(t != s + 1);
                    assert(self.serving@[t - 1] == pre.serving@[t - 1]);
                    let sid = pre.serving@[t - 1].unwrap() as int;
                    assert(sid != id);
                    assert(cs[sid] == pre.cs()[sid]);
                }
            }
            // Every other busy window keeps its wake event; the freed slot
            // needs none.
            assert forall|t: int|
                0 <= t < self.serving@.len() && (#[trigger] self.serving@[t]) is Some
                    && !detached.remove((s + 1) as usize).contains((t + 1) as usize) implies
                has_task(p, (t + 1) as usize) by {
                assert(t != s);
                assert(pre.serving@[t] is Some);
                assert(!detached.contains((t + 1) as usize));
            }
            // The finished customer is no longer served by anyone; everyone
            // else's served-by relation is unchanged.
            assert forall|other: int|
                0 <= other < self.head && other != id implies (served_by(self.serving@, other)
                <==> served_by(pre.serving@, other)) by {
                if served_by(pre.serving@, other) {
                    let w = choose|w: int|
                        0 <= w < pre.serving@.len() && (#[trigger] pre.serving@[w]) == Some(
                            other as usize,
                        );
                    assert(w != s);
                    assert(self.serving@[w] == Some(other as usize));
                }
                if served_by(self.serving@, other) {
                    let w = choose|w: int|
                        0 <= w < self.serving@.len() && (#[trigger] self.serving@[w]) == Some(
                            other as usize,
                        );
                    assert(w != s);
                    assert(pre.serving@[w] == Some(other as usize));
                }
            }
            assert(!served_by(self.serving@, id as int)) by {
                if served_by(self.serving@, id as int) {
                    let w = choose|w: int|
                        0 <= w < self.serving@.len() && (#[trigger] self.serving@[w]) == Some(id);
                    assert(w != s);
                    assert(pre.serving@[w] == Some(id));
                    assert(pre.serving@[s as int] == Some(id));
                    assert(false);
                }
            }
        }
    }

    /// Hands waiting customers to idle server windows, first come first
    /// served, until the queue is empty or every window is busy.
    fn dispatch(&mut self)
        requires
            old(self).inv(Set::empty()),
            (old(self).head as int) < old(self).next() ==> (old(self).cs0@[old(self).head as int].arrival_time
                == old(self).now() || (forall|t: int|
                0 <= t < old(self).serving@.len() && (#[trigger] old(self).serving@[t]) is None
                    ==> old(self).free@[t] == old(self).now())),
        ensures
            final(self).inv(Set::empty()),
            final(self).now() == old(self).now(),
            final(self).measure() == old(self).measure(),
            final(self).chan@ == old(self).chan@,
            final(self).n() == old(self).n(),
            final(self).producer_done == old(self).producer_done,
            final(self).state.num_windows == old(self).state.num_windows,
            final(self).max_time == old(self).max_time,
            final(self).cs0 == old(self).cs0,
            final(self).head as int == final(self).next() || count_some(final(self).serving@)
                == final(self).serving@.len(),
    {
        let ghost pre = *self;
        loop
            invariant_except_break
                self.inv(Set::empty()),
                self.now() == pre.now(),
                self.measure() == pre.measure(),
                self.chan@ == pre.chan@,
                self.producer_done == pre.producer_done,
                self.state.num_windows == pre.state.num_windows,
                self.max_time == pre.max_time,
                self.cs0 == pre.cs0,
                self.n() == pre.n(),
                (self.head as int) < self.next() ==> (self.cs0@[self.head as int].arrival_time
                    == self.now() || (forall|t: int|
                    0 <= t < self.serving@.len() && (#[trigger] self.serving@[t]) is None
                        ==> self.free@[t] == self.now())),
            ensures
                self.inv(Set::empty()),
                self.now() == pre.now(),
                self.measure() == pre.measure(),
                self.chan@ == pre.chan@,
                self.producer_done == pre.producer_done,
                self.state.num_windows == pre.state.num_windows,
                self.max_time == pre.max_time,
                self.cs0 == pre.cs0,
                self.n() == pre.n(),
                self.head as int == self.next() || count_some(self.serving@)
                    == self.serving@.len(),
            decreases self.next() - self.head,
        {
            if self.head == self.chan.len() {
                break;
            }
            match find_idle(&self.serving) {
                None => {
                    proof {
                        lemma_count_some_all_some(self.serving@);
                    }
                    break;
                },
                Some(s) => {
                    let ghost iter_pre = *self;
                    self.start_service(s);
                    proof {
                        // The dispatch condition carries to the next waiting
                        // customer: either it arrived at this very instant
                        // too (arrivals are sorted and admitted ones are not
                        // in the future), or the windows still idle kept
                        // their free instants.
                        if (self.head as int) < self.next() {
                            if iter_pre.cs0@[iter_pre.head as int].arrival_time == iter_pre.now() {
                                assert(self.cs()[self.head as int].arrival_time <= self.now());
                                assert(self.cs0@[self.head as int].arrival_time
                                    >= self.cs0@[iter_pre.head as int].arrival_time);
                                assert(self.cs0@[self.head as int].arrival_time == self.now());
                            } else {
                                assert forall|t: int|
                                    0 <= t < self.serving@.len() && (
                                #[trigger] self.serving@[t]) is None implies self.free@[t]
                                    == self.now() by {
                                    assert(t != s);
                                    assert(iter_pre.serving@[t] is None);
                                    assert(iter_pre.free@[t] == iter_pre.now());
                                }
                            }
                        }
                    }
                },
            }
        }
    }

    /// Processes the tasks one call of `advance` woke, in the order the clock
    /// returned them: the producer admits what is due, and each woken server
    /// window completes its service.
    fn process_woken(&mut self, woken: &Vec<usize>)
        requires
            old(self).inv(woken@.to_set()),
            woken@.no_duplicates(),
        ensures
            final(self).inv(Set::empty()),
            final(self).now() == old(self).now(),
            final(self).head == old(self).head,
            final(self).n() == old(self).n(),
            final(self).state.num_windows == old(self).state.num_windows,
            final(self).max_time == old(self).max_time,
            final(self).cs0 == old(self).cs0,
            woken@.len() > 0 ==> final(self).measure() < old(self).measure(),
            final(self).measure() <= old(self).measure(),
            final(self).free == old(self).free,
            final(self).serving@.len() == old(self).serving@.len(),
            forall|t: int|
                0 <= t < final(self).serving@.len() && (#[trigger] final(self).serving@[t]) is None
                    ==> old(self).serving@[t] is None || final(self).free@[t] == old(self).now(),
            forall|i: int|
                old(self).next() <= i < final(self).next() ==> (
                #[trigger] final(self).cs0@[i]).arrival_time == old(self).now(),
    {
        let ghost pre = *self;
        let mut k: usize = 0;
        proof {
            assert(woken@.skip(0) =~= woken@);
        }
        while k < woken.len()
            invariant
                k <= woken@.len(),
                woken@.no_duplicates(),
                self.inv(woken@.skip(k as int).to_set()),
                self.now() == pre.now(),
                self.head == pre.head,
                self.n() == pre.n(),
                self.state.num_windows == pre.state.num_windows,
                self.max_time == pre.max_time,
                self.cs0 == pre.cs0,
                k > 0 ==> self.measure() < pre.measure(),
                self.measure() <= pre.measure(),
                self.free == pre.free,
                self.serving@.len() == pre.serving@.len(),
                forall|t: int|
                    0 <= t < self.serving@.len() && (#[trigger] self.serving@[t]) is None
                        ==> pre.serving@[t] is None || self.free@[t] == pre.now(),
                forall|i: int|
                    pre.next() <= i < self.next() ==> (#[trigger] self.cs0@[i]).arrival_time
                        == pre.now(),
            decreases woken@.len() - k,
        {
            let ghost det = woken@.skip(k as int).to_set();
            let t = woken[k];
            proof {
                lemma_skip_remove(woken@, k as int);
                assert(det.contains(t));
                assert(det.remove(t) =~= woken@.skip(k as int + 1).to_set());
            }
            if t == 0 {
                self.producer_step(Ghost(det));
            } else {
                proof {
                    assert(self.detached_due(t));
                    assert(1 <= t <= self.serving@.len());
                }
                self.finish_service(t - 1, Ghost(det));
                proof {
                    assert(((t - 1) + 1) as usize == t);
                }
            }
            k = k + 1;
        }
        proof {
            assert(woken@.skip(woken@.len() as int).to_set() =~= Set::<usize>::empty());
        }
    }
}

/// Every instant a run reaches stays under `MAX_CLOCK`.
proof fn lemma_now_capped(now: u64, head: int)
    requires
        now <= crate::MAX_DURATION * (1 + head),
        0 <= head <= crate::MAX_CUSTOMERS,
    ensures
        now <= crate::MAX_CLOCK,
{
    assert((crate::MAX_DURATION as int) * (1 + head) <= (crate::MAX_DURATION as int) * (1
        + crate::MAX_CUSTOMERS)) by (nonlinear_arith)
        requires
            0 <= head <= crate::MAX_CUSTOMERS,
    ;
    assert((crate::MAX_DURATION as int) * (1 + crate::MAX_CUSTOMERS) == crate::MAX_CLOCK as int);
}

/// The two integral accumulations stay far from `u128::MAX` as long as their
/// running bounds hold.
proof fn lemma_integral_fits(stats: Statistics, now: u64, queue: usize, busy: usize, wcap: int)
    requires
        stats.queue_integral_bounded(crate::MAX_CUSTOMERS as int),
        stats.utilization_bounded(wcap),
        queue <= crate::MAX_CUSTOMERS,
        busy <= wcap <= crate::MAX_WINDOWS,
        stats.last_event_time <= now,
        now <= crate::MAX_CLOCK,
    ensures
        stats.queue_length_integral + (now - stats.last_event_time) * queue <= u128::MAX,
        stats.server_busy_integral + (now - stats.last_event_time) * busy <= u128::MAX,
        stats.queue_length_integral + (now - stats.last_event_time) * queue <= (now as int) * (
        crate::MAX_CUSTOMERS as int),
        stats.server_busy_integral + (now - stats.last_event_time) * busy <= (now as int) * wcap,
{
    let last = stats.last_event_time as int;
    let dt = now - last;
    assert(dt * queue <= dt * (crate::MAX_CUSTOMERS as int) && last * (crate::MAX_CUSTOMERS as int)
        + dt * (crate::MAX_CUSTOMERS as int) == now * (crate::MAX_CUSTOMERS as int))
        by (nonlinear_arith)
        requires
            0 <= dt,
            0 <= queue <= crate::MAX_CUSTOMERS,
            last + dt == now,
    ;
    assert(dt * busy <= dt * wcap && last * wcap + dt * wcap == now * wcap) by (nonlinear_arith)
        requires
            0 <= dt,
            0 <= busy <= wcap,
            last + dt == now,
    ;
    assert((now as int) * (crate::MAX_CUSTOMERS as int) <= (crate::MAX_CLOCK as int) * (
    crate::MAX_CUSTOMERS as int) && (now as int) * wcap <= (crate::MAX_CLOCK as int) * (
    crate::MAX_CUSTOMERS as int)) by (nonlinear_arith)
        requires
            0 <= now <= crate::MAX_CLOCK,
            0 <= wcap <= crate::MAX_CUSTOMERS,
    ;
    assert((crate::MAX_CLOCK as int) * (crate::MAX_CUSTOMERS as int) <= u128::MAX)
        by (nonlinear_arith);
}

/// A completion's addition to the running wait and service totals fits, and
/// the running bound moves up with the completion count.
proof fn lemma_total_fits(total: u128, completed: usize, add: u64)
    requires
        total <= completed * (crate::MAX_CLOCK as int),
        completed <= crate::MAX_CUSTOMERS,
        add <= crate::MAX_CLOCK,
    ensures
        total + add <= u128::MAX,
        total + add <= (completed + 1) * (crate::MAX_CLOCK as int),
{
    assert((completed + 1) * (crate::MAX_CLOCK as int) == completed * (crate::MAX_CLOCK as int)
        + crate::MAX_CLOCK) by (nonlinear_arith);
    assert((completed + 1) * (crate::MAX_CLOCK as int) <= (crate::MAX_CUSTOMERS + 1) * (
    crate::MAX_CLOCK as int)) by (nonlinear_arith)
        requires
            completed + 1 <= crate::MAX_CUSTOMERS + 1,
    ;
    assert((crate::MAX_CUSTOMERS + 1) * (crate::MAX_CLOCK as int) <= u128::MAX)
        by (nonlinear_arith);
}

/// The index of a server window with nothing to do, if any.
fn find_idle(serving: &Vec<Option<usize>>) -> (r: Option<usize>)
    ensures
        match r {
            Some(s) => s < serving@.len() && serving@[s as int] is None && forall|t: int|
                0 <= t < s ==> (#[trigger] serving@[t]) is Some,
            None => forall|i: int| 0 <= i < serving@.len() ==> (#[trigger] serving@[i]) is Some,
        },
{
    let mut s: usize = 0;
    while s < serving.len()
        invariant
            s <= serving@.len(),
            forall|i: int| 0 <= i < s ==> (#[trigger] serving@[i]) is Some,
        decreases serving@.len() - s,
    {
        if serving[s].is_none() {
            return Some(s);
        }
        s = s + 1;
    }
    None
}

/// Stamps the service start time of one customer.
fn set_start_time(customers: &mut Vec<Customer>, id: usize, t: u64)
    requires
        id < old(customers).len(),
    ensures
        final(customers)@ == old(customers)@.update(
            id as int,
            Customer { service_start_time: Some(t), ..old(customers)@[id as int] },
        ),
{
    let mut c = customers[id];
    c.service_start_time = Some(t);
    customers[id] = c;
}

/// Stamps the service end time of one customer.
fn set_end_time(customers: &mut Vec<Customer>, id: usize, t: u64)
    requires
        id < old(customers).len(),
    ensures
        final(customers)@ == old(customers)@.update(
            id as int,
            Customer { service_end_time: Some(t), ..old(customers)@[id as int] },
        ),
{
    let mut c = customers[id];
    c.service_end_time = Some(t);
    customers[id] = c;
}

/// A discrete-event simulation of a drive-through service system.
pub struct Simulation {
    pub clock: SimClock,
    pub state: SimState,
}

impl Simulation {
    /// A simulation that is ready to accept customers and to run: nothing has
    /// happened yet, and every stored quantity is within the capacity limits.
    pub open spec fn ready(&self) -> bool {
        &&& self.state.fresh()
        &&& self.clock.spec_now() == 0
        &&& self.clock.pending() == Seq::<crate::clock::WakeEvent>::empty()
        &&& 1 <= self.state.num_windows <= crate::MAX_WINDOWS
        &&& self.state.customers@.len() <= crate::MAX_CUSTOMERS
        &&& all_bounded(self.state.customers@)
    }

    /// Creates a new simulation with the specified number of service windows.
    pub fn new(num_windows: usize) -> (r: Simulation)
        requires
            1 <= num_windows <= crate::MAX_WINDOWS,
        ensures
            r.ready(),
            r.state.num_windows == num_windows,
            r.state.customers@.len() == 0,
    {
        let r = Simulation {
            clock: SimClock::new(),
            state: SimState {
                customers: Vec::new(),
                waiting_queue_len: 0,
                busy_servers: 0,
                num_windows,
                current_time: 0,
                stats: Statistics::new(),
                history: Vec::new(),
            },
        };
        proof {
            assert(r.state.history@ =~= Seq::<crate::history::HistoryEntry>::empty());
        }
        r
    }

    /// Adds a customer to the simulation.
    ///
    /// The arrival time and service duration must lie within the library's
    /// capacity limits, the service duration must be positive, and the list
    /// must still have room.
    pub fn add_customer(&mut self, arrival_time: u64, service_duration: u64)
        requires
            old(self).ready(),
            old(self).state.customers@.len() < crate::MAX_CUSTOMERS,
            arrival_time <= crate::MAX_DURATION,
            1 <= service_duration <= crate::MAX_DURATION,
        ensures
            final(self).ready(),
            final(self).state.customers@ == old(self).state.customers@.push(
                Customer {
                    arrival_time,
                    service_duration,
                    service_start_time: None,
                    service_end_time: None,
                },
            ),
            final(self).state.num_windows == old(self).state.num_windows,
            final(self).clock == old(self).clock,
    {
        self.state.customers.push(
            Customer { arrival_time, service_duration, service_start_time: None, service_end_time: None },
        );
    }

    /// Generates random customers: a Poisson arrival stream with mean
    /// inter-arrival interval `avg_arrival_interval`, each arrival carrying a
    /// service time drawn uniformly from [`min_service`, `max_service`].
    ///
    /// Generation stops once the accumulated arrival time exceeds `max_time`
    /// (or the customer list is full), so the appended customers all arrive
    /// by `max_time`, in strictly increasing arrival order. Started on an
    /// empty simulation, the resulting list is sorted and ready to run.
    pub fn generate_random_customers(
        &mut self,
        max_time: u64,
        avg_arrival_interval: u64,
        min_service: u64,
        max_service: u64,
    )
        requires
            old(self).ready(),
            1 <= max_time <= crate::MAX_DURATION,
            1 <= avg_arrival_interval <= crate::MAX_DURATION,
            1 <= min_service <= max_service <= crate::MAX_DURATION,
        ensures
            final(self).ready(),
            final(self).state.num_windows == old(self).state.num_windows,
            final(self).state.customers@.len() >= old(self).state.customers@.len(),
            final(self).state.customers@.subrange(0, old(self).state.customers@.len() as int)
                == old(self).state.customers@,
            forall|i: int|
                old(self).state.customers@.len() <= i < final(self).state.customers@.len() ==> {
                    let c = #[trigger] final(self).state.customers@[i];
                    &&& 1 <= c.arrival_time <= max_time
                    &&& min_service <= c.service_duration <= max_service
                    &&& c.untouched()
                },
            forall|i: int, j: int|
                old(self).state.customers@.len() <= i < j < final(self).state.customers@.len()
                    ==> #[trigger] final(self).state.customers@[i].arrival_time
                    < #[trigger] final(self).state.customers@[j].arrival_time,
            old(self).state.customers@.len() == 0 ==> sorted_by_arrival(
                final(self).state.customers@,
            ),
            // Generation covers the horizon: it stops only when the list is
            // full or when one more draw — at most 23 mean intervals — could
            // lie past `max_time`. In particular, a generous horizon cannot
            // come back empty.
            final(self).state.customers@.len() == crate::MAX_CUSTOMERS || ((final(self).state.customers@.len() == old(self).state.customers@.len() ==> 23
                * avg_arrival_interval > max_time) && (final(self).state.customers@.len() > old(self).state.customers@.len() ==> final(self).state.customers@.last().arrival_time + 23
                * avg_arrival_interval > max_time)),
    {
        let ghost orig = self.state.customers@;
        let mut current_arrival: u64 = 0;
        loop
            invariant_except_break
                self.ready(),
                self.state.num_windows == old(self).state.num_windows,
                1 <= max_time <= crate::MAX_DURATION,
                1 <= avg_arrival_interval <= crate::MAX_DURATION,
                1 <= min_service <= max_service <= crate::MAX_DURATION,
                current_arrival <= max_time,
                self.state.customers@.len() >= orig.len(),
                self.state.customers@.subrange(0, orig.len() as int) == orig,
                self.state.customers@.len() == orig.len() ==> current_arrival == 0,
                self.state.customers@.len() > orig.len()
                    ==> self.state.customers@.last().arrival_time == current_arrival,
                forall|i: int|
                    orig.len() <= i < self.state.customers@.len() ==> {
                        let c = #[trigger] self.state.customers@[i];
                        &&& 1 <= c.arrival_time <= max_time
                        &&& min_service <= c.service_duration <= max_service
                        &&& c.untouched()
                    },
                forall|i: int|
                    orig.len() <= i < self.state.customers@.len()
                        ==> #[trigger] self.state.customers@[i].arrival_time <= current_arrival,
                forall|i: int, j: int|
                    orig.len() <= i < j < self.state.customers@.len()
                        ==> #[trigger] self.state.customers@[i].arrival_time
                        < #[trigger] self.state.customers@[j].arrival_time,
            ensures
                self.ready(),
                self.state.num_windows == old(self).state.num_windows,
                self.state.customers@.len() >= orig.len(),
                self.state.customers@.subrange(0, orig.len() as int) == orig,
                forall|i: int|
                    orig.len() <= i < self.state.customers@.len() ==> {
                        let c = #[trigger] self.state.customers@[i];
                        &&& 1 <= c.arrival_time <= max_time
                        &&& min_service <= c.service_duration <= max_service
                        &&& c.untouched()
                    },
                forall|i: int, j: int|
                    orig.len() <= i < j < self.state.customers@.len()
                        ==> #[trigger] self.state.customers@[i].arrival_time
                        < #[trigger] self.state.customers@[j].arrival_time,
                self.state.customers@.len() == crate::MAX_CUSTOMERS || ((self.state.customers@.len()
                    == orig.len() ==> 23 * avg_arrival_interval > max_time) && (
                self.state.customers@.len() > orig.len()
                    ==> self.state.customers@.last().arrival_time + 23 * avg_arrival_interval
                    > max_time)),
            decreases max_time - current_arrival,
        {
            let interval = crate::sampling::sample_interarrival(avg_arrival_interval);
            let ghost arrival_before = current_arrival;
            current_arrival = current_arrival + interval;
            if current_arrival > max_time {
                proof {
                    // One more interval — bounded by 23 mean intervals —
                    // already overshoots the horizon.
                    assert(arrival_before + 23 * avg_arrival_interval > max_time);
                }
                break;
            }
            if self.state.customers.len() >= crate::MAX_CUSTOMERS {
                break;
            }
            let service = crate::sampling::sample_service_time(min_service, max_service);
            let ghost before = self.state.customers@;
            self.add_customer(current_arrival, service);
            proof {
                assert(self.state.customers@.subrange(0, orig.len() as int) =~= orig);
                assert(forall|i: int|
                    orig.len() <= i < before.len() ==> #[trigger] self.state.customers@[i]
                        == before[i]);
            }
        }
        proof {
            if orig.len() == 0 {
                assert forall|i: int, j: int|
                    0 <= i <= j < self.state.customers@.len() implies #[trigger] self.state.customers@[i].arrival_time
                    <= #[trigger] self.state.customers@[j].arrival_time by {
                    if i < j {
                        assert(self.state.customers@[i].arrival_time
                            < self.state.customers@[j].arrival_time);
                    }
                }
            }
        }
    }

    /// Runs the simulation.
    ///
    /// With no time limit, the run ends with every customer served; with a
    /// limit, the run admits exactly the customers arriving by the limit and
    /// stops once the clock reaches it, leaving late work in the system. The
    /// driver repeatedly advances the clock to the next wake event; a bounded
    /// stall counter guards against a scheduler with nothing to advance while
    /// work remains (which this engine, by construction, never produces).
    ///
    /// The contract pins down the run's observable outcome. Customers keep
    /// their admission data and are stamped consistently (a recorded start is
    /// never before arrival, an end is exactly start plus service duration),
    /// and every recorded start is exactly the first-come-first-served
    /// schedule's instant for that customer (`fcfs_start`): starts are in
    /// arrival order, at non-decreasing times, and a window never idles while
    /// a customer waits. Customers are conserved (completed plus waiting plus
    /// in service equals admitted). Every statistic equals the corresponding
    /// function of the stamped customer list: the completion count, the wait
    /// and service totals and the maximum wait over the completed customers,
    /// the maximum queue length over the recorded history, the queue-length
    /// integral the total queueing time of the admitted customers, and the
    /// busy-server integral the total server occupation — so the busy-server
    /// integral in particular never exceeds elapsed time times the number of
    /// windows. The recorded history is in time order, has exactly one entry
    /// per transition, names each customer's own transition instant, and
    /// carries in each entry the counters the entries so far imply; with no
    /// time limit the run's final instant is the last entry's time.
    #[verifier::rlimit(80)]
    pub fn run(&mut self, max_time: Option<u64>)
        requires
            old(self).ready(),
            sorted_by_arrival(old(self).state.customers@),
            max_time is Some ==> max_time.unwrap() <= crate::MAX_DURATION,
        ensures
            final(self).state.num_windows == old(self).state.num_windows,
            same_admission_data(final(self).state.customers@, old(self).state.customers@),
            forall|i: int|
                0 <= i < final(self).state.customers@.len() ==> {
                    let c = #[trigger] final(self).state.customers@[i];
                    &&& c.service_start_time is Some ==> c.arrival_time
                        <= c.service_start_time.unwrap() && c.service_start_time.unwrap() <= final(self).state.current_time
                    &&& c.service_end_time is Some ==> c.service_start_time is Some
                        && c.service_end_time.unwrap() == c.service_start_time.unwrap()
                        + c.service_duration && c.service_end_time.unwrap() <= final(self).state.current_time
                },
            forall|i: int, j: int|
                0 <= i <= j < final(self).state.customers@.len() && (
                #[trigger] final(self).state.customers@[j]).service_start_time is Some ==> (
                #[trigger] final(self).state.customers@[i]).service_start_time is Some && final(self).state.customers@[i].service_start_time.unwrap() <= final(self).state.customers@[j].service_start_time.unwrap(),
            final(self).state.stats.completed_customers + final(self).state.waiting_queue_len
                + final(self).state.busy_servers == admitted_count(
                old(self).state.customers@,
                max_time,
            ),
            final(self).state.stats.completed_customers == completed_count(
                final(self).state.customers@,
            ),
            final(self).state.stats.total_wait_time == total_wait_of(final(self).state.customers@),
            final(self).state.stats.total_service_time == total_service_of(
                final(self).state.customers@,
            ),
            final(self).state.stats.max_wait_time == max_wait_of(final(self).state.customers@),
            final(self).state.stats.queue_length_integral == total_queue_time(
                final(self).state.customers@.take(
                    admitted_count(old(self).state.customers@, max_time),
                ),
                final(self).state.current_time as int,
            ),
            final(self).state.stats.server_busy_integral == total_busy_time(
                final(self).state.customers@,
                final(self).state.current_time as int,
            ),
            max_time is None ==> final(self).state.stats.completed_customers == final(self).state.customers@.len() && final(self).state.waiting_queue_len == 0 && final(self).state.busy_servers == 0 && forall|i: int|
                0 <= i < final(self).state.customers@.len() ==> (
                #[trigger] final(self).state.customers@[i]).service_end_time is Some,
            final(self).state.stats.server_busy_integral <= final(self).state.current_time * final(self).state.num_windows,
            final(self).state.busy_servers <= final(self).state.num_windows,
            forall|i: int|
                0 <= i < final(self).state.customers@.len() && (
                #[trigger] final(self).state.customers@[i]).service_start_time is Some ==> final(self).state.customers@[i].service_start_time.unwrap() == fcfs_start(
                    old(self).state.customers@,
                    i,
                    old(self).state.num_windows as nat,
                ),
            final(self).state.waiting_queue_len == 0 || final(self).state.busy_servers == final(self).state.num_windows,
            max_time is None && final(self).state.history@.len() > 0 ==> final(self).state.history@.last().time == final(self).state.current_time,
            max_time is Some ==> final(self).state.current_time >= max_time.unwrap(),
            history_ordered(final(self).state.history@),
            count_events(final(self).state.history@, crate::event::EventType::Arrival)
                == admitted_count(old(self).state.customers@, max_time),
            count_events(final(self).state.history@, crate::event::EventType::ServiceStart)
                == final(self).state.stats.completed_customers + final(self).state.busy_servers,
            count_events(final(self).state.history@, crate::event::EventType::ServiceEnd)
                == final(self).state.stats.completed_customers,
            final(self).state.stats.max_queue_length == max_queue_of(final(self).state.history@),
            // Every recorded entry names its customer and carries that
            // customer's own transition instant, and its counter fields are
            // exactly what the entries so far imply: arrivals minus starts
            // waiting, starts minus ends in service.
            forall|e: int|
                0 <= e < final(self).state.history@.len() ==> {
                    let en = #[trigger] final(self).state.history@[e];
                    &&& en.cust_id < final(self).state.customers@.len()
                    &&& en.event == crate::event::EventType::Arrival ==> final(self).state.customers@[en.cust_id as int].arrival_time == en.time
                    &&& en.event == crate::event::EventType::ServiceStart ==> final(self).state.customers@[en.cust_id as int].service_start_time == Some(en.time)
                    &&& en.event == crate::event::EventType::ServiceEnd ==> final(self).state.customers@[en.cust_id as int].service_end_time == Some(en.time)
                },
            forall|e: int|
                0 <= e < final(self).state.history@.len() ==> (
                #[trigger] final(self).state.history@[e]).queue_len == count_events(
                    final(self).state.history@.take(e + 1),
                    crate::event::EventType::Arrival,
                ) - count_events(
                    final(self).state.history@.take(e + 1),
                    crate::event::EventType::ServiceStart,
                ) && final(self).state.history@[e].busy_servers == count_events(
                    final(self).state.history@.take(e + 1),
                    crate::event::EventType::ServiceStart,
                ) - count_events(
                    final(self).state.history@.take(e + 1),
                    crate::event::EventType::ServiceEnd,
                ),
            forall|e1: int, e2: int|
                0 <= e1 < e2 < final(self).state.history@.len() && (
                #[trigger] final(self).state.history@[e1]).event == (
                #[trigger] final(self).state.history@[e2]).event ==> final(self).state.history@[e1].cust_id != final(self).state.history@[e2].cust_id,
    {
        let mut engine = Engine {
            clock: SimClock::new(),
            state: SimState {
                customers: Vec::new(),
                waiting_queue_len: 0,
                busy_servers: 0,
                num_windows: 1,
                current_time: 0,
                stats: Statistics::new(),
                history: Vec::new(),
            },
            chan: Vec::new(),
            head: 0,
            serving: Vec::new(),
            producer_done: false,
            max_time,
            cs0: Ghost(Seq::empty()),
            free: Ghost(Seq::empty()),
        };
        core::mem::swap(&mut engine.clock, &mut self.clock);
        core::mem::swap(&mut engine.state, &mut self.state);
        proof {
            engine.cs0@ = engine.state.customers@;
        }
        let ghost cs0 = engine.cs0@;
        let ghost n0 = engine.state.customers@.len() as int;

        // One idle slot per service window.
        let ghost clock0 = engine.clock;
        let ghost state0 = engine.state;
        let windows = engine.state.num_windows;
        proof {
            engine.free@ = Seq::new(windows as nat, |i: int| 0int);
        }
        let mut i: usize = 0;
        while i < windows
            invariant
                i <= windows,
                engine.serving@.len() == i,
                forall|k: int| 0 <= k < i ==> (#[trigger] engine.serving@[k]) is None,
                engine.clock == clock0,
                engine.state == state0,
                engine.chan@.len() == 0,
                engine.head == 0,
                !engine.producer_done,
                engine.max_time == max_time,
                engine.cs0@ == cs0,
                engine.free@.len() == windows,
                forall|k: int| 0 <= k < windows ==> #[trigger] engine.free@[k] == 0,
            decreases windows - i,
        {
            engine.serving.push(None);
            i = i + 1;
        }
        proof {
            lemma_count_some_all_none(engine.serving@);
            crate::customer::lemma_stats_of_unfinished(engine.state.customers@);
            assert(engine.state.customers@.take(0) =~= Seq::<Customer>::empty());
            crate::customer::lemma_busy_time_of_unstarted(engine.state.customers@, 0);
            assert(engine.free@ =~= fcfs_free(cs0, 0, windows as nat));
        }

        // Start the producer: schedule its first wake, or, if the first
        // customer arrives at time zero, admit immediately; if even the
        // first arrival lies past the time limit, produce nothing.
        let n = engine.state.customers.len();
        if n > 0 {
            let a0 = engine.state.customers[0].arrival_time;
            let mut truncated = false;
            if let Some(limit) = max_time {
                if a0 > limit {
                    engine.producer_done = true;
                    truncated = true;
                }
            }
            if !truncated {
                let registered = engine.clock.sleep_until(a0, 0);
                if registered {
                    proof {
                        let p = engine.clock.pending();
                        assert(p.len() == 1);
                        assert(p[0].task == 0 && p[0].deadline == a0);
                        assert(has_task(p, 0));
                        assert(engine.cs0@[0].bounded());
                        assert(engine.inv(Set::empty()));
                    }
                } else {
                    let ghost det0: Set<usize> = Set::empty().insert(0usize);
                    proof {
                        assert(a0 == 0);
                        assert(det0.contains(0usize));
                        assert(engine.inv(det0));
                    }
                    engine.producer_step(Ghost(det0));
                    proof {
                        assert(det0.remove(0usize) =~= Set::<usize>::empty());
                    }
                }
            }
        }
        proof {
            assert(engine.inv(Set::empty()));
        }
        engine.dispatch();

        // The driver: advance the clock to the next wake events, let the
        // woken tasks run, hand freed windows their next customers, and stop
        // at the time limit or after too many polls with nothing to advance.
        let mut stall: u64 = 0;
        loop
            invariant_except_break
                engine.inv(Set::empty()),
                engine.head as int == engine.next() || count_some(engine.serving@)
                    == engine.serving@.len(),
                stall == 0 || engine.clock.pending().len() == 0,
                stall <= 100,
                engine.max_time == max_time,
                engine.cs0@ == cs0,
                engine.n() == n0,
                engine.state.num_windows == windows,
            ensures
                engine.inv(Set::empty()),
                engine.head as int == engine.next() || count_some(engine.serving@)
                    == engine.serving@.len(),
                engine.max_time == max_time,
                engine.cs0@ == cs0,
                engine.n() == n0,
                engine.state.num_windows == windows,
                (max_time is Some && engine.now() >= max_time.unwrap())
                    || engine.clock.pending().len() == 0,
            decreases engine.measure(), 100 - stall,
        {
            if let Some(limit) = max_time {
                if engine.clock.now() >= limit {
                    break;
                }
            }
            let ghost e0 = engine;
            let woken = engine.clock.advance();
            if woken.len() == 0 {
                stall = stall + 1;
                if stall > 100 {
                    break;
                }
            } else {
                stall = 0;
                proof {
                    let p = e0.clock.pending();
                    let d = crate::clock::min_deadline(p);
                    assert(p.len() > 0);
                    crate::clock::lemma_min_deadline(p);
                    lemma_advance_partition(p, d);
                    let kept = p.filter(|e: WakeEvent| e.deadline != d);
                    let det = woken@.to_set();
                    // Every kept event is an old event, so it is still a
                    // valid token, still within the deadline cap, and its
                    // task is not among the woken.
                    assert forall|i: int|
                        0 <= i < kept.len() implies engine.valid_token(#[trigger] kept[i])
                        && kept[i].deadline <= crate::MAX_DURATION * (1 + engine.head as int)
                        && !det.contains(kept[i].task) by {
                        let j = choose|j: int| 0 <= j < p.len() && #[trigger] p[j] == kept[i];
                        assert(e0.valid_token(p[j]));
                    }
                    // Every woken task was a due token: its event's deadline
                    // is the new now.
                    assert forall|t: usize| #[trigger] det.contains(t) implies
                        engine.detached_due(t) by {
                        let j = choose|j: int|
                            0 <= j < p.len() && (#[trigger] p[j]).deadline == d && p[j].task == t;
                        assert(e0.valid_token(p[j]));
                    }
                    // A still-busy window whose task was not woken keeps its
                    // event among the kept.
                    assert forall|s: int|
                        0 <= s < engine.serving@.len() && (#[trigger] engine.serving@[s]) is Some
                            && !det.contains((s + 1) as usize) implies has_task(
                        kept,
                        (s + 1) as usize,
                    ) by {
                        assert(has_task(p, (s + 1) as usize));
                        let w = choose|w: int|
                            0 <= w < p.len() && (#[trigger] p[w]).task == (s + 1) as usize;
                        assert(p[w].deadline != d);
                        p.lemma_filter_contains(|e: WakeEvent| e.deadline != d, w);
                        let v = choose|v: int| 0 <= v < kept.len() && #[trigger] kept[v] == p[w];
                        assert(kept[v].task == (s + 1) as usize);
                    }
                    if engine.active() && !det.contains(0usize) {
                        assert(has_task(p, 0));
                        let w = choose|w: int| 0 <= w < p.len() && (#[trigger] p[w]).task == 0;
                        assert(p[w].deadline != d);
                        p.lemma_filter_contains(|e: WakeEvent| e.deadline != d, w);
                        let v = choose|v: int| 0 <= v < kept.len() && #[trigger] kept[v] == p[w];
                        assert(kept[v].task == 0);
                        assert(has_task(kept, 0));
                    }
                    assert(!det.is_empty()) by {
                        assert(woken@.contains(woken@[0]));
                        assert(det.contains(woken@[0]));
                    }
                    // The new now is an old deadline, so it stays capped.
                    assert(exists|j: int|
                        0 <= j < p.len() && (#[trigger] p[j]).deadline == d);
                    assert(engine.inv(det));
                }
                engine.process_woken(&woken);
                proof {
                    // The dispatch condition: if customers wait, then either
                    // the queue was empty before this advance — so the head
                    // customer was admitted at this very instant — or every
                    // window was busy, so any window idle now was freed at
                    // this very instant.
                    if (engine.head as int) < engine.next() {
                        if (e0.head as int) == e0.next() {
                            assert(engine.cs0@[engine.head as int].arrival_time == engine.now());
                        } else {
                            assert(count_some(e0.serving@) == e0.serving@.len());
                            assert forall|t: int|
                                0 <= t < engine.serving@.len() && (
                            #[trigger] engine.serving@[t]) is None implies engine.free@[t]
                                == engine.now() by {
                                if e0.serving@[t] is None {
                                    lemma_count_some_update(e0.serving@, t, Some(0usize));
                                    lemma_count_some_bounds(e0.serving@.update(t, Some(0usize)));
                                }
                            }
                        }
                    }
                }
                engine.dispatch();
            }
        }

        // Finalize the integrals: account the tail interval up to the time
        // limit (or up to the last event, where nothing remains to add).
        let final_time = match max_time {
            Some(limit) => limit,
            None => engine.clock.now(),
        };
        proof {
            lemma_now_capped(engine.now(), engine.head as int);
        }
        let ghost pre_fin = engine;
        if engine.state.current_time < final_time {
            proof {
                lemma_count_some_bounds(engine.serving@);
                lemma_integral_fits(
                    engine.state.stats,
                    final_time,
                    engine.state.waiting_queue_len,
                    engine.state.busy_servers,
                    engine.state.num_windows as int,
                );
            }
            engine.state.update_integral(final_time);
            proof {
                // The tail interval up to the time limit adds the elapsed
                // span once per waiting customer and once per busy server,
                // exactly as the two time totals grow when measured at the
                // later instant.
                let csf = engine.cs();
                let nextf = engine.next();
                let last0 = pre_fin.state.stats.last_event_time;
                let prefix = csf.take(nextf);
                assert(forall|i: int| 0 <= i < nextf ==> #[trigger] prefix[i] == csf[i]);
                crate::customer::lemma_counts_of_prefix_shape(prefix, engine.head as int);
                crate::customer::lemma_flow_shift(prefix, last0 as int, final_time as int);
                crate::customer::lemma_counts_of_prefix_shape(csf, engine.head as int);
                crate::customer::lemma_flow_shift(csf, last0 as int, final_time as int);
            }
        }

        proof {
            lemma_count_some_bounds(engine.serving@);
            let cs = engine.cs();
            let p = engine.clock.pending();
            let next = engine.next();
            // At exit the producer has admitted exactly the customers a run
            // with this time limit admits.
            if p.len() == 0 {
                assert forall|s: int|
                    0 <= s < engine.serving@.len() implies (#[trigger] engine.serving@[s])
                    is None by {
                    if engine.serving@[s] is Some {
                        assert(has_task(p, (s + 1) as usize));
                    }
                }
                lemma_count_some_all_none(engine.serving@);
                if engine.active() {
                    assert(has_task(p, 0));
                    assert(false);
                }
            }
            match max_time {
                Option::None => {
                    assert(p.len() == 0);
                    assert(!engine.producer_done);
                    assert(next == n0);
                    assert(engine.state.busy_servers == 0);
                    assert(engine.head as int == next);
                    assert forall|id: int| 0 <= id < cs.len() implies (
                    #[trigger] cs[id]).service_end_time is Some by {
                        assert(!served_by(engine.serving@, id)) by {
                            if served_by(engine.serving@, id) {
                                let w = choose|w: int|
                                    0 <= w < engine.serving@.len() && (
                                    #[trigger] engine.serving@[w]) == Some(id as usize);
                                assert(engine.serving@[w] is Some);
                                assert(has_task(p, (w + 1) as usize));
                            }
                        }
                    }
                },
                Option::Some(limit) => {
                    if next < n0 && !engine.producer_done {
                        // The producer is still waiting on an arrival whose
                        // deadline lies strictly past now, hence past the
                        // limit.
                        assert(p.len() > 0);
                        assert(engine.now() >= limit);
                        assert(has_task(p, 0));
                        let w = choose|w: int| 0 <= w < p.len() && (#[trigger] p[w]).task == 0;
                        assert(engine.valid_token(p[w]));
                        assert(p[w].deadline > engine.now());
                        assert(cs[next].arrival_time > limit);
                    }
                    assert(forall|i: int|
                        0 <= i < next ==> #[trigger] cs0[i].arrival_time == cs[i].arrival_time
                            && cs[i].arrival_time <= limit);
                    assert(next < n0 ==> cs0[next].arrival_time > limit);
                    crate::customer::lemma_count_arrivals_by_prefix(cs0, limit, next);
                },
            }
        }

        core::mem::swap(&mut engine.clock, &mut self.clock);
        core::mem::swap(&mut engine.state, &mut self.state);
    }
}

} // verus!
