use blockpack::time::{run_discrete_simulation, Clock, EventQueue, SimulatedClock, TimedEvent};
use std::time::Duration;

fn nanos(d: Duration) -> u64 {
    d.as_nanos() as u64
}

#[test]
fn test_simulated_clock() {
    let mut clock = SimulatedClock::new();

    assert_eq!(clock.now(), nanos(Duration::ZERO));
    assert!(clock.is_simulated());

    clock.advance(nanos(Duration::from_secs(10)));
    assert_eq!(clock.now(), nanos(Duration::from_secs(10)));

    clock.advance(nanos(Duration::from_millis(500)));
    assert_eq!(clock.now(), nanos(Duration::from_millis(10_500)));
}

#[test]
fn test_simulated_clock_no_sleep() {
    let clock = SimulatedClock::new();
    let start = std::time::Instant::now();

    // This should not actually sleep
    clock.sleep(nanos(Duration::from_secs(100)));

    assert!(start.elapsed() < Duration::from_millis(100));
}

#[test]
fn test_event_queue_ordering() {
    let mut queue = EventQueue::new();

    queue.schedule(nanos(Duration::from_secs(3)), "third");
    queue.schedule(nanos(Duration::from_secs(1)), "first");
    queue.schedule(nanos(Duration::from_secs(2)), "second");

    assert_eq!(queue.pop().unwrap().event, "first");
    assert_eq!(queue.pop().unwrap().event, "second");
    assert_eq!(queue.pop().unwrap().event, "third");
}

#[test]
fn test_event_queue_peek() {
    let mut queue = EventQueue::new();

    queue.schedule(nanos(Duration::from_secs(5)), "event");

    assert_eq!(queue.peek_time(), Some(nanos(Duration::from_secs(5))));
    assert_eq!(queue.len(), 1);

    queue.pop();
    assert!(queue.is_empty());
}

#[test]
fn test_discrete_simulation() {
    let mut queue = EventQueue::new();

    queue.schedule(nanos(Duration::from_secs(1)), 1);
    queue.schedule(nanos(Duration::from_secs(2)), 2);
    queue.schedule(nanos(Duration::from_secs(3)), 3);
    queue.schedule(nanos(Duration::from_secs(10)), 10); // Beyond end time

    let mut results = Vec::new();

    run_discrete_simulation(queue, nanos(Duration::from_secs(5)), |time, event| {
        results.push((time, event));
    });

    assert_eq!(results.len(), 3);
    assert_eq!(results[0], (nanos(Duration::from_secs(1)), 1));
    assert_eq!(results[1], (nanos(Duration::from_secs(2)), 2));
    assert_eq!(results[2], (nanos(Duration::from_secs(3)), 3));
}

#[test]
fn equal_times_come_out_in_arrival_order() {
    let mut queue = EventQueue::new();
    queue.schedule(5, 'a');
    queue.schedule(1, 'b');
    queue.schedule(5, 'c');
    queue.push(TimedEvent::new(5, 'd'));
    let order: Vec<char> = queue.due_until(u64::MAX).into_iter().map(|e| e.event).collect();
    assert_eq!(order, vec!['b', 'a', 'c', 'd']);
}

#[test]
fn due_until_keeps_only_due_events() {
    let mut queue = EventQueue::default();
    queue.schedule(7, "late");
    queue.schedule(3, "early");
    assert_eq!(queue.peek().map(|e| e.event), Some("early"));
    let due = queue.due_until(6);
    assert_eq!(due.len(), 1);
    assert_eq!(due[0].time, 3);
}

#[test]
fn empty_queue_pops_nothing() {
    let mut queue: EventQueue<u8> = EventQueue::new();
    assert!(queue.pop().is_none());
    assert!(queue.peek().is_none());
    assert_eq!(queue.peek_time(), None);
}

#[test]
fn simulated_clock_at_and_saturation() {
    let mut clock = SimulatedClock::at(u64::MAX - 1);
    assert_eq!(clock.now(), u64::MAX - 1);
    clock.advance(10);
    assert_eq!(clock.now(), u64::MAX);
}

#[test]
fn timed_events_compare_by_time() {
    assert_eq!(TimedEvent::new(4, 'x'), TimedEvent::new(4, 'y'));
    assert_ne!(TimedEvent::new(4, 'x'), TimedEvent::new(5, 'x'));
}
