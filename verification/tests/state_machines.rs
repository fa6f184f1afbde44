use std::time::Duration;

use waveconductor::rearm::{rearm_step, should_rearm, stage_is_empty, RearmStep};
use waveconductor::slot_ranges::{pack_slot_ranges, MAX_EDGE_POINTS};
use waveconductor::visibility::VisibilityLatch;

/// The strict admission bar and the lenient hold bar of the latch.
const VIS_GATE_OPEN: f32 = 0.5;
const VIS_GATE_CLOSE: f32 = 0.35;

fn step(latch: &mut VisibilityLatch, visibility: f32) -> bool {
    latch.step_gate(visibility >= VIS_GATE_OPEN, visibility >= VIS_GATE_CLOSE)
}

#[test]
fn latch_is_hysteretic() {
    let mut latch = VisibilityLatch::default();
    assert!(!step(&mut latch, 0.45), "below open bar stays closed");
    assert!(step(&mut latch, 0.55), "opens at the strict bar");
    assert!(step(&mut latch, 0.40), "marginal band holds open");
    assert!(!step(&mut latch, 0.30), "closes below the lenient bar");
    assert!(!step(&mut latch, 0.40), "marginal band does NOT reopen");
    assert!(step(&mut latch, 0.60), "reopens only at the strict bar");
}

#[test]
fn reset_closes_the_latch() {
    let mut latch = VisibilityLatch::default();
    step(&mut latch, 0.9);
    latch.reset();
    assert!(!latch.is_open());
    assert!(!step(&mut latch, 0.40), "post-reset requires the strict bar again");
}

fn ns(d: Duration) -> u128 {
    d.as_nanos()
}

#[test]
fn every_guard_blocks_the_rearm() {
    let window = Duration::from_secs(3);
    let past = Duration::from_secs(5);
    let recent = Duration::from_secs(1);

    assert!(should_rearm(ns(past), ns(past), false, ns(window)), "empty long enough, operator away, panel closed");
    assert!(!should_rearm(ns(recent), ns(past), false, ns(window)), "stage only just went empty");
    assert!(!should_rearm(ns(past), ns(recent), false, ns(window)), "operator touched the machine inside the window");
    assert!(!should_rearm(ns(past), ns(past), true, ns(window)), "an open settings panel must never be closed under the operator");
    assert!(should_rearm(ns(window), ns(window), false, ns(window)));
}

#[test]
fn rearm_countdown_starts_fires_once_and_restarts() {
    let w = 3_000;
    let idle = 10_000;
    let s = rearm_step(None, 100, true, idle, false, w);
    assert_eq!(s, RearmStep { empty_since_ns: Some(100), force: false });
    let s = rearm_step(s.empty_since_ns, 2_000, true, idle, false, w);
    assert_eq!(s, RearmStep { empty_since_ns: Some(100), force: false });
    let s = rearm_step(s.empty_since_ns, 3_100, true, idle, false, w);
    assert_eq!(s, RearmStep { empty_since_ns: None, force: true });
    // Content returns: countdown cleared.
    let s = rearm_step(Some(5), 9_000, false, idle, false, w);
    assert_eq!(s, RearmStep { empty_since_ns: None, force: false });
    // An open panel holds the countdown without losing its start.
    let s = rearm_step(Some(0), 9_000, true, idle, true, w);
    assert_eq!(s, RearmStep { empty_since_ns: Some(0), force: false });
}

#[test]
fn slot_ranges_are_prefix_sums_clamped_to_capacity() {
    let r = pack_slot_ranges([10, 0, 5, 7]);
    assert_eq!(r.slot_start, [0, 10, 10, 15]);
    assert_eq!(r.slot_count, [10, 0, 5, 7]);
    assert_eq!(r.edge_count, 22);
    let r = pack_slot_ranges([2000, 100, 5, usize::MAX]);
    assert_eq!(r.slot_start, [0, 2000, 2048, 2048]);
    assert_eq!(r.slot_count, [2000, 48, 0, 0]);
    assert_eq!(r.edge_count as usize, MAX_EDGE_POINTS);
}

#[test]
fn a_fading_body_still_counts_as_content() {
    assert!(stage_is_empty(None));
    // A default tracking state: no slot occupied.
    assert!(stage_is_empty(Some(0)), "no slots occupied");
    // Slot 0 holds a departed body mid fade-out: one occupied slot.
    assert!(!stage_is_empty(Some(1)), "a fading body is still on screen");
    assert!(!stage_is_empty(Some(4)));
}
