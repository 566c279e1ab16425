use rcore_os::syscall::fs::{alloc_fd, sys_close, sys_fstat, sys_open, sys_read, sys_write, FileAccess};
use rcore_os::syscall::process::{sys_get_time, sys_sbrk};

fn table() -> Vec<Option<FileAccess>> {
    vec![
        Some(FileAccess { readable: true, writable: false }),
        Some(FileAccess { readable: false, writable: true }),
        None,
    ]
}

#[test]
fn syscalls_write_checks() {
    let t = table();
    assert_eq!(sys_write(&t, 0), Err(-1));
    assert_eq!(sys_write(&t, 1), Ok(1));
    assert_eq!(sys_write(&t, 2), Err(-1));
    assert_eq!(sys_write(&t, 9), Err(-1));
}

#[test]
fn syscalls_read_checks() {
    let t = table();
    assert_eq!(sys_read(&t, 0), Ok(0));
    assert_eq!(sys_read(&t, 1), Err(-1));
    assert_eq!(sys_read(&t, 2), Err(-1));
    assert_eq!(sys_read(&t, 3), Err(-1));
}

#[test]
fn syscalls_fstat_checks() {
    let t = table();
    assert_eq!(sys_fstat(&t, 0), Ok(0));
    assert_eq!(sys_fstat(&t, 2), Err(-1));
    assert_eq!(sys_fstat(&t, 7), Err(-1));
}

#[test]
fn syscalls_open_uses_first_free_slot() {
    let mut t: Vec<Option<u32>> = vec![Some(10), None, Some(12)];
    assert_eq!(sys_open(&mut t, Some(11)), 1);
    assert_eq!(t, vec![Some(10), Some(11), Some(12)]);
    assert_eq!(sys_open(&mut t, Some(13)), 3);
    assert_eq!(t, vec![Some(10), Some(11), Some(12), Some(13)]);
    assert_eq!(sys_open(&mut t, None), -1);
    assert_eq!(t.len(), 4);
}

#[test]
fn syscalls_close_undoes_open() {
    let mut t: Vec<Option<u32>> = vec![Some(10), None];
    let fd = sys_open(&mut t, Some(11));
    assert_eq!(sys_close(&mut t, fd as usize), 0);
    assert_eq!(t, vec![Some(10), None]);
    let fd = sys_open(&mut t, Some(11));
    let fd2 = sys_open(&mut t, Some(12));
    assert_eq!(fd2, 2);
    assert_eq!(sys_close(&mut t, fd2 as usize), 0);
    assert_eq!(t, vec![Some(10), Some(11), None]);
    assert_eq!(sys_close(&mut t, fd as usize), 0);
    assert_eq!(sys_close(&mut t, fd as usize), -1);
    assert_eq!(sys_close(&mut t, 10), -1);
}

#[test]
fn syscalls_alloc_fd_appends_when_full() {
    let mut t: Vec<Option<u8>> = vec![Some(1)];
    assert_eq!(alloc_fd(&mut t), 1);
    assert_eq!(t, vec![Some(1), None]);
    assert_eq!(alloc_fd(&mut t), 1);
}

#[test]
fn syscalls_get_time_splits_microseconds() {
    let ts = sys_get_time(3_250_001);
    assert_eq!(ts.sec, 3);
    assert_eq!(ts.usec, 250_001);
    let ts = sys_get_time(999_999);
    assert_eq!((ts.sec, ts.usec), (0, 999_999));
}

#[test]
fn syscalls_sbrk_result() {
    assert_eq!(sys_sbrk(Some(0x8000)), 0x8000);
    assert_eq!(sys_sbrk(None), -1);
}
