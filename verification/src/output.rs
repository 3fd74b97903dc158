//! Messages for an ordered event sink.

use vstd::prelude::*;
use crate::event::EventType;
use crate::history::HistoryEntry;

verus! {

/// One notification for an external ordered sink: a state transition together
/// with the counters as they stood right after it, and the number of service
/// windows for presentation.
#[derive(Debug, Clone, Copy)]
pub struct OutputMessage {
    pub time: u64,
    pub event: EventType,
    pub cust_id: usize,
    pub queue_len: usize,
    pub busy_servers: usize,
    pub num_windows: usize,
}

impl OutputMessage {
    /// Builds the notification for one recorded transition.
    pub fn from_entry(entry: &HistoryEntry, num_windows: usize) -> (r: OutputMessage)
        ensures
            r.time == entry.time,
            r.event == entry.event,
            r.cust_id == entry.cust_id,
            r.queue_len == entry.queue_len,
            r.busy_servers == entry.busy_servers,
            r.num_windows == num_windows,
    {
        OutputMessage {
            time: entry.time,
            event: entry.event,
            cust_id: entry.cust_id,
            queue_len: entry.queue_len,
            busy_servers: entry.busy_servers,
            num_windows,
        }
    }
}

} // verus!
