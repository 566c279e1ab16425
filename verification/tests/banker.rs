use rcore_os::sync::banker::Banker;

#[test]
fn banker_without_threads_is_safe() {
    let mut b = Banker::new();
    assert!(b.check_safety());
    b.add_new_resource_type(2, 5);
    assert!(b.check_safety());
}

#[test]
fn banker_single_thread_is_safe() {
    let mut b = Banker::new();
    b.add_new_resource_type(0, 1);
    b.add_to_need(0, 0, 1);
    assert!(b.check_safety());
}

#[test]
fn banker_order_found_by_release() {
    // One resource type with 1 free unit.  Thread 1 needs 1 and can
    // finish; it releases 2, which lets thread 0 (needing 3) finish.
    let mut b = Banker::new();
    b.add_new_resource_type(0, 1);
    b.add_to_allocation(0, 0, 1);
    b.add_to_need(0, 0, 3);
    b.add_to_allocation(1, 0, 2);
    b.add_to_need(1, 0, 1);
    assert!(b.check_safety());
}

#[test]
fn banker_unsafe_when_no_thread_fits() {
    let mut b = Banker::new();
    b.add_new_resource_type(0, 0);
    b.add_new_resource_type(1, 0);
    b.add_to_allocation(0, 0, 1);
    b.add_to_need(0, 1, 1);
    b.add_to_allocation(1, 1, 1);
    b.add_to_need(1, 0, 1);
    assert!(!b.check_safety());
}

#[test]
fn banker_more_free_units_make_it_safe() {
    let mut b = Banker::new();
    b.add_new_resource_type(0, 0);
    b.add_to_allocation(0, 0, 1);
    b.add_to_need(0, 0, 2);
    b.add_to_allocation(1, 0, 1);
    b.add_to_need(1, 0, 2);
    assert!(!b.check_safety());
    b.add_to_available(0, 1);
    assert!(!b.check_safety());
    b.add_to_available(0, 1);
    assert!(b.check_safety());
}

#[test]
fn banker_release_undoes_allocation() {
    let mut b = Banker::new();
    b.add_new_resource_type(0, 0);
    b.add_to_need(0, 0, 1);
    assert!(!b.check_safety());
    b.add_to_allocation(1, 0, 1);
    b.add_to_need(1, 0, 1);
    b.add_to_allocation(1, 0, -1);
    b.add_to_need(1, 0, -1);
    assert!(!b.check_safety());
    b.add_to_available(0, 1);
    assert!(b.check_safety());
}

#[test]
fn banker_grows_to_unseen_thread() {
    let mut b = Banker::new();
    b.add_new_resource_type(1, 2);
    b.add_to_need(3, 1, 2);
    assert!(b.check_safety());
    b.add_to_need(3, 1, 1);
    assert!(!b.check_safety());
}

#[test]
fn banker_short_rows_count_as_zero() {
    let mut b = Banker::new();
    b.add_new_resource_type(0, 1);
    b.add_to_allocation(0, 0, 1);
    b.add_new_resource_type(1, 1);
    assert!(b.check_safety());
    b.add_to_need(1, 1, 2);
    assert!(!b.check_safety());
}

#[test]
fn banker_negative_holding() {
    let mut b = Banker::new();
    b.add_new_resource_type(0, 0);
    b.add_to_allocation(0, 0, -1);
    b.add_to_need(1, 0, 1);
    assert!(!b.check_safety());
    b.add_to_available(0, 2);
    assert!(b.check_safety());
}
