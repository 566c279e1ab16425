use rcore_os::syscall::process::{sys_exit, sys_trace, sys_yield, TraceAction};
use rcore_os::syscall::{SYSCALL_EXIT, SYSCALL_SBRK, SYSCALL_TRACE, SYSCALL_WRITE, SYSCALL_YIELD};
use rcore_os::task::TaskManager;

#[test]
fn tasks_round_robin_switches() {
    let mut m = TaskManager::new(3);
    assert_eq!(m.run_first_task(), 0);
    assert_eq!(m.suspend_current_and_run_next(), Some((0, 1)));
    assert_eq!(m.suspend_current_and_run_next(), Some((1, 2)));
    assert_eq!(m.suspend_current_and_run_next(), Some((2, 0)));
}

#[test]
fn tasks_exited_tasks_are_skipped() {
    let mut m = TaskManager::new(3);
    m.run_first_task();
    assert_eq!(m.exit_current_and_run_next(), Some((0, 1)));
    assert_eq!(m.suspend_current_and_run_next(), Some((1, 2)));
    assert_eq!(m.suspend_current_and_run_next(), Some((2, 1)));
    assert_eq!(m.exit_current_and_run_next(), Some((1, 2)));
    assert_eq!(m.exit_current_and_run_next(), None);
}

#[test]
fn tasks_single_task_yields_to_itself() {
    let mut m = TaskManager::new(1);
    m.run_first_task();
    assert_eq!(m.suspend_current_and_run_next(), Some((0, 0)));
    assert_eq!(m.exit_current_and_run_next(), None);
}

#[test]
fn tasks_no_task_to_run() {
    let mut m = TaskManager::new(0);
    assert_eq!(m.run_next_task(), None);
}

#[test]
fn tasks_syscall_slots() {
    assert_eq!(TaskManager::get_syscall_count_idx(SYSCALL_WRITE), 0);
    assert_eq!(TaskManager::get_syscall_count_idx(SYSCALL_EXIT), 1);
    assert_eq!(TaskManager::get_syscall_count_idx(SYSCALL_YIELD), 2);
    assert_eq!(TaskManager::get_syscall_count_idx(SYSCALL_TRACE), 4);
    assert_eq!(TaskManager::get_syscall_count_idx(SYSCALL_SBRK), 7);
}

#[test]
fn tasks_count_after_add() {
    let mut m = TaskManager::new(2);
    m.run_first_task();
    assert_eq!(m.get_syscall_count(SYSCALL_WRITE), 0);
    m.add_syscall_count(SYSCALL_WRITE);
    m.add_syscall_count(SYSCALL_WRITE);
    m.add_syscall_count(SYSCALL_TRACE);
    assert_eq!(m.get_syscall_count(SYSCALL_WRITE), 2);
    assert_eq!(m.get_syscall_count(SYSCALL_TRACE), 1);
    assert_eq!(m.get_syscall_count(SYSCALL_SBRK), 0);
    m.suspend_current_and_run_next();
    assert_eq!(m.get_syscall_count(SYSCALL_WRITE), 0);
}

#[test]
fn tasks_trace_requests() {
    let mut m = TaskManager::new(1);
    m.run_first_task();
    m.add_syscall_count(SYSCALL_TRACE);
    assert!(matches!(sys_trace(&m, 0, 0x1000, 0), TraceAction::ReadByte(0x1000)));
    assert!(matches!(sys_trace(&m, 1, 0x1000, 0x1ff), TraceAction::WriteByte(0x1000, 0xff)));
    assert!(matches!(sys_trace(&m, 2, SYSCALL_TRACE, 0), TraceAction::Return(1)));
    assert!(matches!(sys_trace(&m, 3, 0, 0), TraceAction::Return(-1)));
}

#[test]
fn tasks_yield_and_exit_calls() {
    let mut m = TaskManager::new(2);
    m.run_first_task();
    assert_eq!(sys_yield(&mut m), (0, Some((0, 1))));
    assert_eq!(sys_exit(&mut m, 0), Some((1, 0)));
    assert_eq!(sys_exit(&mut m, 0), None);
}
