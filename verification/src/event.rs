//! The kinds of state transition a customer goes through.

use vstd::prelude::*;

verus! {

/// One of the three observable transitions in a customer's life:
/// arriving at the queue, starting service, and finishing service.
#[derive(Debug, Clone, Copy, PartialEq, Eq, Structural)]
pub enum EventType {
    Arrival,
    ServiceStart,
    ServiceEnd,
}

impl EventType {
    /// The event's name, as it appears in a persisted event log.
    pub fn name(&self) -> (r: String)
        ensures
            *self == EventType::Arrival ==> r@ == "Arrival"@,
            *self == EventType::ServiceStart ==> r@ == "ServiceStart"@,
            *self == EventType::ServiceEnd ==> r@ == "ServiceEnd"@,
    {
        match self {
            EventType::Arrival => "Arrival".to_string(),
            EventType::ServiceStart => "ServiceStart".to_string(),
            EventType::ServiceEnd => "ServiceEnd".to_string(),
        }
    }
}

} // verus!
