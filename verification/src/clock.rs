//! The virtual clock: simulated time plus a registry of pending wake events.

use vstd::prelude::*;

verus! {

/// A pending wake request: the task named by `task` asked to be resumed once
/// simulated time reaches `deadline`.
#[derive(Debug, Clone, Copy, PartialEq, Eq, Structural)]
pub struct WakeEvent {
    pub deadline: u64,
    pub task: usize,
}

/// A simulation clock that manages virtual time and task scheduling.
///
/// The clock owns the simulated "now" and a min-priority registry of pending
/// wake events; it advances time discretely to the next due event. Tasks are
/// identified by plain numbers; a task suspends by registering one wake event
/// and is resumed when `advance` returns its number.
#[derive(Debug)]
pub struct SimClock {
    now: u64,
    pending: Vec<WakeEvent>,
}

/// The earliest deadline among the events of `s`.
pub open spec fn min_deadline(s: Seq<WakeEvent>) -> u64
    recommends
        s.len() > 0,
    decreases s.len(),
{
    if s.len() <= 1 {
        s[0].deadline
    } else {
        let m = min_deadline(s.drop_last());
        if s.last().deadline < m {
            s.last().deadline
        } else {
            m
        }
    }
}

/// `min_deadline` is a lower bound on every deadline of a non-empty registry
/// and is attained by one of its events.
pub proof fn lemma_min_deadline(s: Seq<WakeEvent>)
    requires
        s.len() > 0,
    ensures
        forall|i: int| 0 <= i < s.len() ==> min_deadline(s) <= #[trigger] s[i].deadline,
        exists|i: int| 0 <= i < s.len() && #[trigger] s[i].deadline == min_deadline(s),
    decreases s.len(),
{
    if s.len() <= 1 {
        assert(s[0].deadline == min_deadline(s));
    } else {
        let prefix = s.drop_last();
        lemma_min_deadline(prefix);
        assert(forall|i: int| 0 <= i < prefix.len() ==> prefix[i] == #[trigger] s[i]);
        if s.last().deadline < min_deadline(prefix) {
            assert(s[s.len() - 1].deadline == min_deadline(s));
        } else {
            let w = choose|i: int|
                0 <= i < prefix.len() && #[trigger] prefix[i].deadline == min_deadline(prefix);
            assert(s[w].deadline == min_deadline(s));
        }
    }
}

impl SimClock {
    /// The current virtual time, for use in contracts.
    pub closed spec fn spec_now(&self) -> u64 {
        self.now
    }

    /// The pending wake events, in registration order, for use in contracts.
    pub closed spec fn pending(&self) -> Seq<WakeEvent> {
        self.pending@
    }

    /// Well-formed: every pending deadline lies strictly in the future. The
    /// constructor establishes this and every method preserves it, because a
    /// sleep that is already due registers nothing.
    pub open spec fn wf(&self) -> bool {
        forall|i: int|
            0 <= i < self.pending().len() ==> (#[trigger] self.pending()[i]).deadline
                > self.spec_now()
    }

    /// Creates a new simulation clock starting at time 0 with no pending
    /// events.
    pub fn new() -> (r: SimClock)
        ensures
            r.wf(),
            r.spec_now() == 0,
            r.pending() == Seq::<WakeEvent>::empty(),
    {
        let r = SimClock { now: 0, pending: Vec::new() };
        proof {
            assert(r.pending() =~= Seq::<WakeEvent>::empty());
        }
        r
    }

    /// Returns the current simulation time.
    pub fn now(&self) -> (r: u64)
        ensures
            r == self.spec_now(),
    {
        self.now
    }

    /// Returns the current simulation time (same as `now`): the farthest
    /// instant the clock has advanced to.
    pub fn elapsed(&self) -> (r: u64)
        ensures
            r == self.spec_now(),
    {
        self.now()
    }

    /// Suspends task `task` for `duration` ticks of simulation time.
    ///
    /// A sleep for no time at all registers nothing — the caller should treat
    /// the task as immediately runnable — and otherwise exactly one wake
    /// event is registered for this call, so a task that calls once is woken
    /// once.
    pub fn sleep(&mut self, duration: u64, task: usize) -> (registered: bool)
        requires
            old(self).spec_now() + duration <= u64::MAX,
        ensures
            duration == 0 ==> !registered && *final(self) == *old(self),
            duration > 0 ==> registered && final(self).spec_now() == old(self).spec_now()
                && final(self).pending() == old(self).pending().push(
                WakeEvent { deadline: (old(self).spec_now() + duration) as u64, task },
            ),
            old(self).wf() ==> final(self).wf(),
    {
        if duration == 0 {
            return false;
        }
        let wake_time = self.now + duration;
        self.sleep_until(wake_time, task)
    }

    /// Suspends task `task` until the absolute instant `wake_time`.
    ///
    /// If `wake_time` is at or before the current time, nothing is registered
    /// and the caller should treat the task as immediately runnable;
    /// otherwise exactly one wake event is registered for this call.
    pub fn sleep_until(&mut self, wake_time: u64, task: usize) -> (registered: bool)
        ensures
            wake_time <= old(self).spec_now() ==> !registered && *final(self) == *old(self),
            wake_time > old(self).spec_now() ==> registered && final(self).spec_now() == old(
                self,
            ).spec_now() && final(self).pending() == old(self).pending().push(
                WakeEvent { deadline: wake_time, task },
            ),
            old(self).wf() ==> final(self).wf(),
    {
        if wake_time <= self.now {
            return false;
        }
        self.pending.push(WakeEvent { deadline: wake_time, task });
        true
    }

    /// Advances the simulation clock to the next scheduled event.
    ///
    /// Pops the earliest pending wake events — the one with the least
    /// deadline together with every other event already due at that new
    /// "now", a defensive catch-up — sets `now` to that deadline, and returns
    /// the woken tasks in registration order. Returns no tasks if and only if
    /// no pending events existed, which is not by itself an error: the driver
    /// decides separately whether the run is finished or stuck.
    pub fn advance(&mut self) -> (woken: Vec<usize>)
        requires
            old(self).wf(),
        ensures
            final(self).wf(),
            old(self).pending().len() == 0 ==> *final(self) == *old(self) && woken@.len() == 0,
            old(self).pending().len() > 0 ==> ({
                let d = min_deadline(old(self).pending());
                &&& final(self).spec_now() == d
                &&& d > old(self).spec_now()
                &&& final(self).pending() == old(self).pending().filter(
                    |e: WakeEvent| e.deadline != d,
                )
                &&& woken@ == old(self).pending().filter(|e: WakeEvent| e.deadline == d)
                    .map_values(|e: WakeEvent| e.task)
                &&& woken@.len() > 0
            }),
    {
        let ghost p = self.pending@;
        let n = self.pending.len();
        if n == 0 {
            let woken: Vec<usize> = Vec::new();
            proof {
                assert(woken@ =~= Seq::<usize>::empty());
            }
            return woken;
        }
        let mut d: u64 = self.pending[0].deadline;
        let mut i: usize = 1;
        proof {
            assert(p.take(1) =~= seq![p[0]]);
        }
        while i < n
            invariant
                1 <= i <= n,
                n == p.len(),
                self.pending@ == p,
                d == min_deadline(p.take(i as int)),
            decreases n - i,
        {
            proof {
                assert(p.take(i + 1).drop_last() =~= p.take(i as int));
                assert(p.take(i + 1).last() == p[i as int]);
            }
            if self.pending[i].deadline < d {
                d = self.pending[i].deadline;
            }
            i = i + 1;
        }
        proof {
            assert(p.take(n as int) =~= p);
        }
        let ghost eq_pred = |e: WakeEvent| e.deadline == d;
        let ghost ne_pred = |e: WakeEvent| e.deadline != d;
        let ghost task_of = |e: WakeEvent| e.task;
        let mut kept: Vec<WakeEvent> = Vec::new();
        let mut woken: Vec<usize> = Vec::new();
        let mut j: usize = 0;
        proof {
            lemma_min_deadline(p);
            assert(p.take(0) =~= Seq::<WakeEvent>::empty());
            reveal_with_fuel(Seq::filter, 2);
            assert(kept@ =~= p.take(0).filter(ne_pred));
            assert(woken@ =~= p.take(0).filter(eq_pred).map_values(task_of));
        }
        while j < n
            invariant
                0 <= j <= n,
                n == p.len(),
                self.pending@ == p,
                kept@ == p.take(j as int).filter(ne_pred),
                woken@ == p.take(j as int).filter(eq_pred).map_values(task_of),
                eq_pred == (|e: WakeEvent| e.deadline == d),
                ne_pred == (|e: WakeEvent| e.deadline != d),
                task_of == (|e: WakeEvent| e.task),
                forall|k: int| 0 <= k < kept@.len() ==> (#[trigger] kept@[k]).deadline > d,
                forall|k: int| 0 <= k < p.len() ==> d <= (#[trigger] p[k]).deadline,
            decreases n - j,
        {
            let e = self.pending[j];
            proof {
                let prefix = p.take(j as int);
                assert(p.take(j + 1) =~= prefix.push(e));
                prefix.lemma_filter_push(e, ne_pred);
                prefix.lemma_filter_push(e, eq_pred);
                if eq_pred(e) {
                    assert(prefix.filter(eq_pred).push(e).map_values(task_of) =~= prefix.filter(
                        eq_pred,
                    ).map_values(task_of).push(e.task));
                }
            }
            if e.deadline == d {
                woken.push(e.task);
            } else {
                kept.push(e);
            }
            j = j + 1;
        }
        proof {
            assert(p.take(n as int) =~= p);
            lemma_min_deadline(p);
            let w = choose|k: int| 0 <= k < p.len() && #[trigger] p[k].deadline == min_deadline(p);
            assert(eq_pred(p[w]));
            p.lemma_filter_contains(eq_pred, w);
            assert(p.filter(eq_pred).len() > 0);
        }
        self.pending = kept;
        self.now = d;
        woken
    }
}

impl Default for SimClock {
    /// Same as `SimClock::new`.
    fn default() -> (r: SimClock)
        ensures
            r.wf(),
            r.spec_now() == 0,
            r.pending() == Seq::<WakeEvent>::empty(),
    {
        SimClock::new()
    }
}

} // verus!
