use rcore_os::syscall::fs::{sys_linkat, sys_unlinkat};
use rcore_os::vfs::Inode;

#[test]
fn vfs_create_find_ls() {
    let mut root = Inode::new();
    assert_eq!(root.create("a", 1), Some(1));
    assert_eq!(root.create("b", 2), Some(2));
    assert_eq!(root.create("a", 3), None);
    assert_eq!(root.find("a"), Some(1));
    assert_eq!(root.find("b"), Some(2));
    assert_eq!(root.find("c"), None);
    assert_eq!(root.ls(), vec!["a".to_string(), "b".to_string()]);
}

#[test]
fn vfs_link_then_unlink_restores() {
    let mut root = Inode::new();
    root.create("a", 1);
    root.create("b", 2);
    assert_eq!(root.linkat("a", "c"), 0);
    assert_eq!(root.find("c"), Some(1));
    assert_eq!(root.ls(), vec!["a".to_string(), "b".to_string(), "c".to_string()]);
    assert_eq!(root.unlinkat("c"), (0, None));
    assert_eq!(root.ls(), vec!["a".to_string(), "b".to_string()]);
    assert_eq!(root.find("a"), Some(1));
}

#[test]
fn vfs_link_failures() {
    let mut root = Inode::new();
    root.create("a", 1);
    root.create("b", 2);
    assert_eq!(root.linkat("a", "b"), -1);
    assert_eq!(root.linkat("x", "y"), -1);
    assert_eq!(root.ls(), vec!["a".to_string(), "b".to_string()]);
}

#[test]
fn vfs_unlink_last_link_frees_inode() {
    let mut root = Inode::new();
    root.create("a", 1);
    root.create("b", 2);
    root.linkat("a", "c");
    assert_eq!(root.unlinkat("a"), (0, None));
    assert_eq!(root.find("c"), Some(1));
    assert_eq!(root.unlinkat("c"), (0, Some(1)));
    assert_eq!(root.unlinkat("b"), (0, Some(2)));
    assert_eq!(root.unlinkat("b"), (-1, None));
    assert!(root.ls().is_empty());
}

#[test]
fn vfs_unlink_keeps_order_of_the_rest() {
    let mut root = Inode::new();
    root.create("a", 1);
    root.create("b", 2);
    root.create("c", 3);
    root.create("d", 4);
    assert_eq!(root.unlinkat("b"), (0, Some(2)));
    assert_eq!(root.ls(), vec!["a".to_string(), "c".to_string(), "d".to_string()]);
}

#[test]
fn vfs_syscalls() {
    let mut root = Inode::new();
    root.create("a", 1);
    assert_eq!(sys_linkat(&mut root, "a", "a"), -1);
    assert_eq!(sys_linkat(&mut root, "a", "b"), 0);
    assert_eq!(sys_linkat(&mut root, "a", "b"), -1);
    assert_eq!(sys_unlinkat(&mut root, "a"), (0, None));
    assert_eq!(sys_unlinkat(&mut root, "a"), (-1, None));
    assert_eq!(sys_unlinkat(&mut root, "b"), (0, Some(1)));
}
