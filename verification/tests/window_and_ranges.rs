use trace_tool::event::{TimedTracedEvent, TracedEvent};
use trace_tool::slot_ranges::slot_ranges;
use trace_tool::time_range::time_range;
use trace_tool::window::WindowFilter;

fn boundary(ts: u64, slot: u64) -> TimedTracedEvent {
    TimedTracedEvent(ts, TracedEvent::BlockAndBankHash(slot))
}

/// With no lower bound and an upper bound of five, events at positions
/// [1, 3, 5, 6] are all started, and only the last is past the window.
#[test]
fn window_no_start_end_five() {
    let mut filter = WindowFilter::new(None, Some(5));
    let mut started = Vec::new();
    let mut done = Vec::new();
    for pos in [1u64, 3, 5, 6] {
        filter.observe(pos);
        started.push(filter.started);
        done.push(filter.done);
    }
    assert_eq!(started, vec![true, true, true, true]);
    assert_eq!(done, vec![false, false, false, true]);
}

/// Both flags are monotonic: once inside, later low positions do not reset
/// `started`, and once past the end, `done` stays set.
#[test]
fn window_flags_never_reset() {
    let mut filter = WindowFilter::new(Some(10), Some(20));
    assert!(!filter.observe(5));
    assert!(filter.observe(15));
    assert!(filter.observe(3));
    assert!(!filter.observe(25));
    assert!(!filter.observe(12));
    assert!(filter.started && filter.done);
}

/// Consecutive slots merge into one range; gaps close the run.
#[test]
fn slot_ranges_merges_consecutive() {
    let events = vec![
        boundary(0, 10),
        boundary(1, 11),
        boundary(2, 12),
        boundary(3, 20),
        boundary(4, 21),
        boundary(5, 30),
    ];
    let ranges = slot_ranges(&events);
    assert_eq!(ranges, vec![(10, 12), (20, 21), (30, 30)]);
}

/// A repeated or backwards slot closes the run too.
#[test]
fn slot_ranges_backwards_slot() {
    let events = vec![boundary(0, 5), boundary(1, 5), boundary(2, 4)];
    let ranges = slot_ranges(&events);
    assert_eq!(ranges, vec![(5, 5), (5, 5), (4, 4)]);
}

/// A run ending at the largest slot saturates instead of wrapping: the
/// successor check compares against the same value, so only that slot itself
/// extends the run.
#[test]
fn slot_ranges_at_largest_slot() {
    let events = vec![boundary(0, u64::MAX), boundary(1, u64::MAX)];
    let ranges = slot_ranges(&events);
    assert_eq!(ranges, vec![(u64::MAX, u64::MAX)]);
}

/// No boundary events: no ranges.
#[test]
fn slot_ranges_empty() {
    let events: Vec<TimedTracedEvent> = Vec::new();
    assert!(slot_ranges(&events).is_empty());
}

/// The time range is the least and greatest timestamp over all events.
#[test]
fn time_range_min_max() {
    let events = vec![boundary(40, 1), boundary(10, 2), boundary(30, 3)];
    assert_eq!(time_range(&events), Some((10, 40)));
}

/// An empty trace has no time range.
#[test]
fn time_range_empty() {
    let events: Vec<TimedTracedEvent> = Vec::new();
    assert_eq!(time_range(&events), None);
}
