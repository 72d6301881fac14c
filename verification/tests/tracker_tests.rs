use std::cell::Cell;
use std::rc::Rc;

use herdr_triage::herdr::Agent;
use herdr_triage::tracker::{clock_reading, AttentionTracker};

fn agent(id: &str, status: &str) -> Agent {
    Agent {
        terminal_id: id.to_string(),
        agent: Some("aider".to_string()),
        task: Some("task".to_string()),
        status: status.to_string(),
        pane_id: Some("w1:p1".to_string()),
        cwd: Some("/x".to_string()),
    }
}

/// A settable clock: returns whatever the handle was last set to.
fn fake_clock() -> (Rc<Cell<u64>>, Box<dyn Fn() -> u64>) {
    let cell = Rc::new(Cell::new(0u64));
    let handle = Rc::clone(&cell);
    (cell, Box::new(move || handle.get()))
}

#[test]
fn measures_time_in_the_current_status() {
    let (clock, now) = fake_clock();
    clock.set(1000);
    let mut t = AttentionTracker::with_clock(now);
    t.observe(&[agent("a", "blocked")]);
    clock.set(6000);
    assert_eq!(t.in_status_ms("a"), 5000);
}

#[test]
fn resets_the_timer_when_the_status_changes() {
    let (clock, now) = fake_clock();
    let mut t = AttentionTracker::with_clock(now);
    t.observe(&[agent("a", "working")]);
    clock.set(10_000);
    t.observe(&[agent("a", "blocked")]); // status changed → since resets to now
    clock.set(12_000);
    assert_eq!(t.in_status_ms("a"), 2000);
}

#[test]
fn keeps_the_timer_running_while_the_status_is_unchanged() {
    let (clock, now) = fake_clock();
    let mut t = AttentionTracker::with_clock(now);
    t.observe(&[agent("a", "blocked")]);
    clock.set(3000);
    t.observe(&[agent("a", "blocked")]); // same status → since unchanged
    clock.set(8000);
    assert_eq!(t.in_status_ms("a"), 8000);
}

#[test]
fn forgets_agents_that_disappear() {
    let (clock, now) = fake_clock();
    let mut t = AttentionTracker::with_clock(now);
    t.observe(&[agent("a", "blocked")]);
    clock.set(5000);
    t.observe(&[]);
    assert_eq!(t.in_status_ms("a"), 0);
}

#[test]
fn returns_zero_for_an_unknown_agent() {
    let (_clock, now) = fake_clock();
    let t = AttentionTracker::with_clock(now);
    assert_eq!(t.in_status_ms("nope"), 0);
}

#[test]
fn a_backwards_clock_does_not_produce_a_huge_age() {
    let (clock, now) = fake_clock();
    clock.set(10_000);
    let mut t = AttentionTracker::with_clock(now);
    t.observe(&[agent("a", "blocked")]);
    clock.set(4_000); // e.g. an NTP step
    assert_eq!(t.in_status_ms("a"), 0);
}

#[test]
fn times_several_agents_at_explicit_instants() {
    let mut t = AttentionTracker::new();
    t.observe_at(&[agent("a", "idle"), agent("b", "done")], 100);
    t.observe_at(&[agent("b", "done"), agent("c", "blocked"), agent("a", "working")], 250);
    assert_eq!(t.in_status_ms_at("a", 300), 50);
    assert_eq!(t.in_status_ms_at("b", 300), 200);
    assert_eq!(t.in_status_ms_at("c", 300), 50);
    t.observe_at(&[agent("c", "blocked")], 400);
    assert_eq!(t.in_status_ms_at("a", 500), 0);
    assert_eq!(t.in_status_ms_at("b", 500), 0);
    assert_eq!(t.in_status_ms_at("c", 500), 250);
}

#[test]
fn a_repeated_listing_takes_its_last_status() {
    let mut t = AttentionTracker::default();
    t.observe_at(&[agent("a", "blocked")], 0);
    t.observe_at(&[agent("a", "working"), agent("a", "blocked")], 70);
    assert_eq!(t.in_status_ms_at("a", 100), 30);
}

#[test]
fn the_wall_clock_tracker_times_from_now() {
    let mut t = AttentionTracker::new();
    t.observe(&[agent("a", "blocked")]);
    assert!(t.in_status_ms("a") < 60_000);
}

#[test]
fn a_clock_before_the_epoch_reads_zero() {
    assert_eq!(clock_reading(None), 0);
}

#[test]
fn a_clock_reading_is_its_milliseconds_since_the_epoch() {
    assert_eq!(clock_reading(Some(1_700_000_000_123)), 1_700_000_000_123);
    assert_eq!(clock_reading(Some(0)), 0);
}

#[test]
fn milliseconds_beyond_u64_wrap() {
    assert_eq!(clock_reading(Some(u64::MAX as u128 + 6)), 5);
}

#[test]
fn the_given_clock_is_the_one_read() {
    let (clock, now) = fake_clock();
    clock.set(500);
    let mut t = AttentionTracker::with_clock(now);
    t.observe(&[agent("a", "idle")]);
    clock.set(1_250);
    assert_eq!(t.in_status_ms("a"), 750);
    assert_eq!(t.in_status_ms_at("a", 2_000), 1_500);
}

#[test]
fn agents_clone_field_for_field() {
    let a = agent("a", "blocked");
    assert_eq!(a.clone(), a);
}
