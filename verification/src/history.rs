//! Buffered event history of a run.

use vstd::prelude::*;
use crate::event::EventType;

verus! {

/// One recorded state transition, with the counters as they stood right
/// after the transition. Entries are recorded in non-decreasing time order;
/// a persisted event log is one row per entry.
#[derive(Debug, Clone, Copy)]
pub struct HistoryEntry {
    pub time: u64,
    pub event: EventType,
    pub cust_id: usize,
    pub queue_len: usize,
    pub busy_servers: usize,
}

/// The entries of `h` carry non-decreasing times.
pub open spec fn history_ordered(h: Seq<HistoryEntry>) -> bool {
    forall|i: int, j: int| 0 <= i <= j < h.len() ==> #[trigger] h[i].time <= #[trigger] h[j].time
}

/// The largest queue length any entry of `h` carries, zero when none.
pub open spec fn max_queue_of(h: Seq<HistoryEntry>) -> int
    decreases h.len(),
{
    if h.len() == 0 {
        0
    } else {
        let m = max_queue_of(h.drop_last());
        if h.last().queue_len > m {
            h.last().queue_len as int
        } else {
            m
        }
    }
}

/// How many entries of `h` record an event of kind `e`.
pub open spec fn count_events(h: Seq<HistoryEntry>, e: EventType) -> int
    decreases h.len(),
{
    if h.len() == 0 {
        0
    } else {
        count_events(h.drop_last(), e) + if h.last().event == e {
            1int
        } else {
            0int
        }
    }
}

} // verus!
