use rcore_os::sync::detector::{Detector, DetectorInner};
use std::collections::BTreeMap;

fn empty() -> DetectorInner {
    Detector::new().inner
}

#[test]
fn detector_empty_has_no_deadlock() {
    let d = empty();
    assert!(!d.detect_deadlock());
}

#[test]
fn detector_cycle_is_deadlock() {
    let mut d = empty();
    d.set_available(0, 1);
    d.set_available(1, 1);
    d.remove_available(0);
    d.add_allocation(1, 0);
    d.remove_available(1);
    d.add_allocation(2, 1);
    d.add_need(1, 1);
    d.add_need(2, 0);
    assert!(d.detect_deadlock());
}

#[test]
fn detector_waiting_for_free_lock_is_fine() {
    let mut d = empty();
    d.set_available(0, 1);
    d.set_available(1, 1);
    d.remove_available(0);
    d.add_allocation(1, 0);
    d.add_need(2, 0);
    assert!(!d.detect_deadlock());
    d.add_need(1, 1);
    assert!(!d.detect_deadlock());
}

#[test]
fn detector_release_breaks_the_cycle() {
    let mut d = empty();
    d.set_available(0, 1);
    d.set_available(1, 1);
    d.remove_available(0);
    d.add_allocation(1, 0);
    d.remove_available(1);
    d.add_allocation(2, 1);
    d.add_need(1, 1);
    d.add_need(2, 0);
    assert!(d.detect_deadlock());
    d.remove_need(2, 0);
    assert!(!d.detect_deadlock());
}

#[test]
fn detector_semaphore_counts() {
    let mut d = empty();
    d.set_available(7, 2);
    d.add_need(1, 7);
    d.add_need(1, 7);
    assert!(!d.detect_deadlock());
    d.add_need(1, 7);
    assert!(d.detect_deadlock());
    d.add_available(7);
    assert!(!d.detect_deadlock());
}

#[test]
fn detector_set_available_keeps_low_byte() {
    let mut d = empty();
    d.set_available(3, 300);
    assert_eq!(d.available.get(&3), Some(&44));
}

#[test]
fn detector_remove_available_stops_at_zero() {
    let mut d = empty();
    d.remove_available(5);
    assert_eq!(d.available.get(&5), None);
    d.set_available(5, 1);
    d.remove_available(5);
    d.remove_available(5);
    assert_eq!(d.available.get(&5), Some(&0));
    d.add_available(5);
    assert_eq!(d.available.get(&5), Some(&1));
    d.add_available(6);
    assert_eq!(d.available.get(&6), Some(&1));
}

#[test]
fn detector_remove_allocation_undoes_add() {
    let mut d = empty();
    d.add_allocation(4, 9);
    d.add_allocation(4, 9);
    assert_eq!(d.allocation.get(&4).unwrap().get(&9), Some(&2));
    d.remove_allocation(4, 9);
    assert_eq!(d.allocation.get(&4).unwrap().get(&9), Some(&1));
    d.remove_allocation(4, 9);
    assert_eq!(d.allocation.get(&4), Some(&BTreeMap::new()));
    d.remove_allocation(4, 9);
    d.remove_allocation(8, 9);
    assert_eq!(d.allocation.get(&4), Some(&BTreeMap::new()));
    assert_eq!(d.allocation.get(&8), None);
}

#[test]
fn detector_remove_need_drops_zero_entries() {
    let mut d = empty();
    d.add_need(2, 1);
    d.remove_need(2, 1);
    assert!(d.need.get(&2).unwrap().is_empty());
}

#[test]
fn detector_remove_available_undoes_add() {
    let mut d = empty();
    d.set_available(5, 3);
    d.add_available(5);
    assert_eq!(d.available.get(&5), Some(&4));
    d.remove_available(5);
    assert_eq!(d.available.get(&5), Some(&3));
}

fn cycle(a: usize, b: usize) -> DetectorInner {
    let mut d = empty();
    d.set_available(0, 0);
    d.set_available(1, 0);
    d.add_allocation(a, 0);
    d.add_allocation(b, 1);
    d.add_need(a, 1);
    d.add_need(b, 0);
    d
}

#[test]
fn detector_answer_ignores_thread_ids() {
    assert!(cycle(1, 2).detect_deadlock());
    assert!(cycle(40, 7).detect_deadlock());
    let mut d1 = cycle(1, 2);
    let mut d2 = cycle(40, 7);
    d1.remove_need(1, 1);
    d2.remove_need(40, 1);
    assert!(!d1.detect_deadlock());
    assert!(!d2.detect_deadlock());
}

#[test]
fn detector_more_free_units_no_new_deadlock() {
    let mut d = cycle(1, 2);
    assert!(d.detect_deadlock());
    d.add_available(1);
    assert!(!d.detect_deadlock());
    d.add_available(0);
    assert!(!d.detect_deadlock());
}
