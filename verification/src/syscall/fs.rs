//! File and file-system system calls: the checks on the descriptor table
//! and on the paths, before the file itself is read or written.
use vstd::prelude::*;
use crate::vfs::{first_index, lookup, links, names_unique, Inode};

verus! {

/// What the read and write checks read of an open file.
#[derive(Clone, Copy, Debug)]
pub struct FileAccess {
    /// The file may be read.
    pub readable: bool,
    /// The file may be written.
    pub writable: bool,
}

/// Checks a write to descriptor `fd`: `Ok(fd)` when it names an open,
/// writable file, which the write then goes to (the call returning what
/// the write returns); `Err(-1)` otherwise.
pub fn sys_write(fd_table: &Vec<Option<FileAccess>>, fd: usize) -> (r: Result<usize, isize>)
    ensures
        r == if fd < fd_table@.len() && fd_table@[fd as int] is Some && fd_table@[fd as int]->0.writable {
            Ok::<usize, isize>(fd)
        } else {
            Err::<usize, isize>(-1isize)
        },
{
    if fd >= fd_table.len() {
        return Err(-1);
    }
    match &fd_table[fd] {
        Some(file) => {
            if !file.writable {
                return Err(-1);
            }
            Ok(fd)
        },
        None => Err(-1),
    }
}

/// Checks a read from descriptor `fd`: `Ok(fd)` when it names an open,
/// readable file, which the read then comes from; `Err(-1)` otherwise.
pub fn sys_read(fd_table: &Vec<Option<FileAccess>>, fd: usize) -> (r: Result<usize, isize>)
    ensures
        r == if fd < fd_table@.len() && fd_table@[fd as int] is Some && fd_table@[fd as int]->0.readable {
            Ok::<usize, isize>(fd)
        } else {
            Err::<usize, isize>(-1isize)
        },
{
    if fd >= fd_table.len() {
        return Err(-1);
    }
    match &fd_table[fd] {
        Some(file) => {
            if !file.readable {
                return Err(-1);
            }
            Ok(fd)
        },
        None => Err(-1),
    }
}

/// Index of the first free slot of `fd_table`, or its length when every
/// slot is taken.
pub open spec fn first_free<T>(fd_table: Seq<Option<T>>) -> int {
    if exists|i: int| 0 <= i < fd_table.len() && #[trigger] fd_table[i] is None && forall|j: int|
        0 <= j < i ==> #[trigger] fd_table[j] is Some {
        choose|i: int|
            0 <= i < fd_table.len() && #[trigger] fd_table[i] is None && forall|j: int|
                0 <= j < i ==> #[trigger] fd_table[j] is Some
    } else {
        fd_table.len() as int
    }
}

/// Allocates a descriptor: the first free slot, or a new slot at the end.
pub fn alloc_fd<T>(fd_table: &mut Vec<Option<T>>) -> (fd: usize)
    ensures
        fd == first_free(old(fd_table)@),
        fd < final(fd_table)@.len(),
        final(fd_table)@[fd as int] is None,
        final(fd_table)@ == if fd < old(fd_table)@.len() {
            old(fd_table)@
        } else {
            old(fd_table)@.push(None)
        },
{
    let mut i: usize = 0;
    while i < fd_table.len()
        invariant
            fd_table@ == old(fd_table)@,
            i <= fd_table@.len(),
            forall|j: int| 0 <= j < i ==> #[trigger] fd_table@[j] is Some,
        decreases fd_table@.len() - i,
    {
        if fd_table[i].is_none() {
            proof {
                let t = fd_table@;
                let c = choose|c: int|
                    0 <= c < t.len() && #[trigger] t[c] is None && forall|j: int|
                        0 <= j < c ==> #[trigger] t[j] is Some;
                if c < i {
                    assert(t[c] is Some);
                }
                if i < c {
                    assert(t[i as int] is Some);
                }
            }
            return i;
        }
        i += 1;
    }
    fd_table.push(None);
    fd_table.len() - 1
}

/// Opens a file: puts the opened file (`None` when the file system could
/// not open it) into the first free descriptor and returns the descriptor,
/// or returns -1.
pub fn sys_open<T>(fd_table: &mut Vec<Option<T>>, opened: Option<T>) -> (r: isize)
    requires
        old(fd_table)@.len() < isize::MAX,
    ensures
        opened is None ==> r == -1 && final(fd_table)@ == old(fd_table)@,
        opened is Some ==> {
            let fd = first_free(old(fd_table)@);
            &&& r == fd
            &&& final(fd_table)@ == (if fd < old(fd_table)@.len() {
                old(fd_table)@
            } else {
                old(fd_table)@.push(None)
            }).update(fd, opened)
        },
{
    match opened {
        Some(inode) => {
            let fd = alloc_fd(fd_table);
            fd_table.set(fd, Some(inode));
            fd as isize
        },
        None => -1,
    }
}

/// Closes descriptor `fd`: -1 when it names no open file, otherwise frees
/// the slot and returns 0.
pub fn sys_close<T>(fd_table: &mut Vec<Option<T>>, fd: usize) -> (r: isize)
    ensures
        fd < old(fd_table)@.len() && old(fd_table)@[fd as int] is Some ==> r == 0
            && final(fd_table)@ == old(fd_table)@.update(fd as int, None),
        !(fd < old(fd_table)@.len() && old(fd_table)@[fd as int] is Some) ==> r == -1
            && final(fd_table)@ == old(fd_table)@,
{
    if fd >= fd_table.len() {
        return -1;
    }
    if fd_table[fd].is_none() {
        return -1;
    }
    fd_table.set(fd, None);
    0
}

/// Checks an `fstat` of descriptor `fd`: `Ok(fd)` when it names an open
/// file, whose status is then copied out (the call returning 0); `Err(-1)`
/// otherwise.
pub fn sys_fstat<T>(fd_table: &Vec<Option<T>>, fd: usize) -> (r: Result<usize, isize>)
    ensures
        r == if fd < fd_table@.len() && fd_table@[fd as int] is Some {
            Ok::<usize, isize>(fd)
        } else {
            Err::<usize, isize>(-1isize)
        },
{
    if fd < fd_table.len() {
        if fd_table[fd].is_some() {
            return Ok(fd);
        }
    }
    Err(-1)
}

/// Hard-links `new_name` to the file `old_name` in the root directory.
/// The two names must differ; -1 otherwise, and whenever the link fails.
pub fn sys_linkat(root: &mut Inode, old_name: &str, new_name: &str) -> (r: isize)
    ensures
        old_name@ == new_name@ ==> r == -1 && final(root).entries() == old(root).entries(),
        old_name@ != new_name@ ==> {
            let es = old(root).entries();
            if lookup(es, new_name@) is Some || lookup(es, old_name@) is None {
                r == -1 && final(root).entries() == es
            } else {
                r == 0 && final(root).entries() == es.push((new_name@, lookup(es, old_name@)->0))
            }
        },
        names_unique(old(root).entries()) ==> names_unique(final(root).entries()),
{
    let old_path = old_name.to_owned();
    let new_path = new_name.to_owned();
    if old_path != new_path {
        return root.linkat(old_name, new_name);
    }
    -1
}

/// Removes the entry `name` from the root directory; see
/// [`Inode::unlinkat`].
pub fn sys_unlinkat(root: &mut Inode, name: &str) -> (r: (isize, Option<u32>))
    requires
        old(root).entries().len() <= u32::MAX,
    ensures
        first_index(old(root).entries(), name@) is None ==> r == (-1isize, None::<u32>)
            && final(root).entries() == old(root).entries(),
        first_index(old(root).entries(), name@) matches Some(i) ==> {
            let id = old(root).entries()[i].1;
            &&& r.0 == 0
            &&& r.1 == if links(old(root).entries(), id) == 1 { Some(id) } else { None }
            &&& final(root).entries() == old(root).entries().remove(i)
        },
        names_unique(old(root).entries()) ==> names_unique(final(root).entries())
            && lookup(final(root).entries(), name@) is None,
{
    root.unlinkat(name)
}

/// Closing the descriptor that an open returned restores the descriptor
/// table, up to one free slot left at its end.
pub proof fn lemma_close_undoes_open<T>(before: Seq<Option<T>>, opened: Seq<Option<T>>, closed: Seq<Option<T>>, file: T)
    requires
        opened == (if first_free(before) < before.len() {
            before
        } else {
            before.push(None)
        }).update(first_free(before), Some(file)),
        closed == opened.update(first_free(before), None),
    ensures
        closed == if first_free(before) < before.len() {
            before
        } else {
            before.push(None)
        },
{
    let fd = first_free(before);
    if fd < before.len() {
        let i = choose|i: int|
            0 <= i < before.len() && #[trigger] before[i] is None && forall|j: int|
                0 <= j < i ==> #[trigger] before[j] is Some;
        assert(before[fd] is None);
        assert(closed =~= before);
    } else {
        assert(closed =~= before.push(None));
    }
}

} // verus!
