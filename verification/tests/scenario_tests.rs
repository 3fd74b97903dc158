//! Scenario tests: exact event times for hand-checked runs, plus the clock
//! and the smaller components exercised directly.

use drive_through_simulation::clock::SimClock;
use drive_through_simulation::event::EventType;
use drive_through_simulation::history::HistoryEntry;
use drive_through_simulation::output::OutputMessage;
use drive_through_simulation::simulation::Simulation;

/// One window, customers (0,100), (10,50), (20,50): the second customer
/// starts service exactly when the first finishes, the third exactly when
/// the second finishes.
#[test]
fn test_scenario_fcfs_exact_times() {
    let mut sim = Simulation::new(1);
    sim.add_customer(0, 100);
    sim.add_customer(10, 50);
    sim.add_customer(20, 50);

    sim.run(None);

    let cs = &sim.state.customers;
    assert_eq!(cs[0].service_start_time, Some(0));
    assert_eq!(cs[0].service_end_time, Some(100));
    assert_eq!(cs[1].service_start_time, Some(100));
    assert_eq!(cs[1].service_end_time, Some(150));
    assert_eq!(cs[2].service_start_time, Some(150));
    assert_eq!(cs[2].service_end_time, Some(200));
    assert_eq!(sim.state.current_time, 200);
    assert_eq!(sim.state.stats.completed_customers, 3);

    // Waits: 0, 90, 130; services: 100, 50, 50.
    assert_eq!(sim.state.stats.total_wait_time, 220);
    assert_eq!(sim.state.stats.total_service_time, 200);
    assert_eq!(sim.state.stats.max_wait_time, 130);

    // The single server works without a pause: busy integral == 200.
    assert_eq!(sim.state.stats.server_busy_integral, 200);
    // Queue time: customer 1 waits 90, customer 2 waits 130.
    assert_eq!(sim.state.stats.queue_length_integral, 220);
}

/// A customer arriving past the time limit is never admitted; the ones
/// arriving by the limit are.
#[test]
fn test_arrival_past_limit_not_admitted() {
    let mut sim = Simulation::new(1);
    sim.add_customer(0, 10);
    sim.add_customer(50, 10);

    sim.run(Some(20));

    let state = &sim.state;
    assert_eq!(state.stats.completed_customers, 1);
    assert_eq!(state.waiting_queue_len, 0);
    assert_eq!(state.busy_servers, 0);
    assert_eq!(state.customers[0].service_end_time, Some(10));
    assert_eq!(state.customers[1].service_start_time, None);
    assert_eq!(state.customers[1].service_end_time, None);
    assert!(state.current_time >= 20);
}

/// Customers arriving at the same instant are all admitted at that instant
/// and served first come first served.
#[test]
fn test_equal_arrival_times() {
    let mut sim = Simulation::new(2);
    sim.add_customer(5, 10);
    sim.add_customer(5, 10);
    sim.add_customer(5, 10);

    sim.run(None);

    let cs = &sim.state.customers;
    assert_eq!(cs[0].service_start_time, Some(5));
    assert_eq!(cs[1].service_start_time, Some(5));
    // Both windows busy: the third waits for the first to finish.
    assert_eq!(cs[2].service_start_time, Some(15));
    assert_eq!(sim.state.stats.completed_customers, 3);
    assert_eq!(sim.state.current_time, 25);
}

/// A run with no customers ends immediately with nothing recorded.
#[test]
fn test_empty_run() {
    let mut sim = Simulation::new(4);
    sim.run(None);

    assert_eq!(sim.state.stats.completed_customers, 0);
    assert_eq!(sim.state.current_time, 0);
    assert_eq!(sim.state.waiting_queue_len, 0);
    assert_eq!(sim.state.busy_servers, 0);
    assert!(sim.state.history.is_empty());
}

/// A service already in progress when the limit strikes is carried to its
/// end, which the final clock reading reflects.
#[test]
fn test_time_limit_overshoot() {
    let mut sim = Simulation::new(1);
    sim.add_customer(0, 100);

    sim.run(Some(50));

    assert_eq!(sim.state.stats.completed_customers, 1);
    assert_eq!(sim.state.customers[0].service_end_time, Some(100));
    assert!(sim.state.current_time >= 50);
}

/// Random generation respects its bounds: arrivals stay within the horizon
/// in strictly increasing order, service times stay in range, and no
/// service is stamped yet.
#[test]
fn test_generate_random_bounds() {
    let mut sim = Simulation::new(1);
    sim.generate_random_customers(1000, 50, 5, 9);

    let cs = &sim.state.customers;
    for c in cs.iter() {
        assert!(c.arrival_time <= 1000);
        assert!(c.service_duration >= 5 && c.service_duration <= 9);
        assert!(c.service_start_time.is_none());
        assert!(c.service_end_time.is_none());
    }
    for w in cs.windows(2) {
        assert!(w[0].arrival_time < w[1].arrival_time);
    }
}

/// The recorded history is in time order and counts one entry per
/// transition, starting with the first arrival.
#[test]
fn test_history_order_and_counts() {
    let mut sim = Simulation::new(1);
    sim.add_customer(0, 100);
    sim.add_customer(10, 50);
    sim.add_customer(20, 50);

    sim.run(None);

    let history = &sim.state.history;
    let mut arrivals = 0;
    let mut starts = 0;
    let mut ends = 0;
    let mut last_time = 0u64;
    for entry in history.iter() {
        assert!(entry.time >= last_time, "history must be in time order");
        last_time = entry.time;
        match entry.event {
            EventType::Arrival => arrivals += 1,
            EventType::ServiceStart => starts += 1,
            EventType::ServiceEnd => ends += 1,
        }
    }
    assert_eq!(arrivals, 3);
    assert_eq!(starts, 3);
    assert_eq!(ends, 3);
    assert_eq!(history[0].time, 0);
    assert_eq!(history[0].event, EventType::Arrival);
    assert_eq!(history[0].cust_id, 0);
}

/// The clock pops events in deadline order, does not register a sleep that
/// is already due, and wakes every task sharing the popped deadline at once.
#[test]
fn test_clock_ordering() {
    let mut clock = SimClock::new();
    assert_eq!(clock.now(), 0);
    assert_eq!(clock.elapsed(), 0);

    assert!(clock.sleep_until(5, 7));
    assert!(clock.sleep_until(3, 2));
    assert!(clock.sleep(4, 9)); // deadline 4

    let woken = clock.advance();
    assert_eq!(clock.now(), 3);
    assert_eq!(woken, vec![2usize]);

    let woken = clock.advance();
    assert_eq!(clock.now(), 4);
    assert_eq!(woken, vec![9usize]);

    // A sleep until the past yields nothing to schedule.
    assert!(!clock.sleep_until(2, 11));
    // A sleep for no time at all yields nothing to schedule.
    assert!(!clock.sleep(0, 12));

    let woken = clock.advance();
    assert_eq!(clock.now(), 5);
    assert_eq!(woken, vec![7usize]);

    // Nothing pending: the clock reports it without moving.
    let woken = clock.advance();
    assert!(woken.is_empty());
    assert_eq!(clock.now(), 5);
}

/// Two wake events sharing a deadline are resumed by one advance, in
/// registration order.
#[test]
fn test_clock_shared_deadline() {
    let mut clock = SimClock::new();
    assert!(clock.sleep_until(4, 1));
    assert!(clock.sleep_until(4, 2));
    assert!(clock.sleep_until(9, 3));

    let woken = clock.advance();
    assert_eq!(clock.now(), 4);
    assert_eq!(woken, vec![1usize, 2usize]);

    let woken = clock.advance();
    assert_eq!(clock.now(), 9);
    assert_eq!(woken, vec![3usize]);
}

/// Event names as a persisted log spells them.
#[test]
fn test_event_names() {
    assert_eq!(EventType::Arrival.name(), "Arrival");
    assert_eq!(EventType::ServiceStart.name(), "ServiceStart");
    assert_eq!(EventType::ServiceEnd.name(), "ServiceEnd");
}

/// An output notification carries the recorded transition unchanged.
#[test]
fn test_output_message_from_entry() {
    let entry = HistoryEntry {
        time: 42,
        event: EventType::ServiceStart,
        cust_id: 7,
        queue_len: 3,
        busy_servers: 2,
    };
    let msg = OutputMessage::from_entry(&entry, 4);
    assert_eq!(msg.time, 42);
    assert_eq!(msg.event, EventType::ServiceStart);
    assert_eq!(msg.cust_id, 7);
    assert_eq!(msg.queue_len, 3);
    assert_eq!(msg.busy_servers, 2);
    assert_eq!(msg.num_windows, 4);
}
