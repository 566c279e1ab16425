//! Process management system calls: what they compute and decide; the
//! context switches and the accesses to user memory they ask for are
//! carried out by the caller.
use vstd::prelude::*;
use crate::task::{is_counted, switched, syscall_slot, TaskManager, TaskStatus};

verus! {

/// A time of day, split into seconds and microseconds.
#[derive(Clone, Copy, Debug)]
pub struct TimeVal {
    /// Whole seconds.
    pub sec: usize,
    /// Microseconds past the last whole second.
    pub usec: usize,
}

/// The time value `sys_get_time` copies out for a clock reading of `us`
/// microseconds; the call itself returns 0.
pub fn sys_get_time(us: usize) -> (ts: TimeVal)
    ensures
        ts.sec == us / 1_000_000,
        ts.usec == us % 1_000_000,
{
    TimeVal { sec: us / 1_000_000, usec: us % 1_000_000 }
}

/// What a `trace` call does.
#[derive(Clone, Copy, Debug)]
pub enum TraceAction {
    /// Read the byte of user memory at this address; the call returns the
    /// byte, or what the read reports.
    ReadByte(usize),
    /// Write this byte to user memory at this address; the call returns
    /// what the write reports.
    WriteByte(usize, u8),
    /// The call returns this value.
    Return(isize),
}

/// Decides a `trace` call: request 0 reads the byte at `id`, request 1
/// writes the low byte of `data` at `id`, request 2 returns how often the
/// current task used system call `id`, any other request returns -1.
pub fn sys_trace(tasks: &TaskManager, trace_request: usize, id: usize, data: usize) -> (a: TraceAction)
    requires
        trace_request == 2 ==> tasks.wf() && tasks.statuses().len() > 0 && is_counted(id),
    ensures
        trace_request == 0 ==> a == TraceAction::ReadByte(id),
        trace_request == 1 ==> a == TraceAction::WriteByte(id, (data % 256) as u8),
        trace_request == 2 ==> a == TraceAction::Return(
            tasks.counts()[tasks.current()][syscall_slot(id)] as isize,
        ),
        trace_request > 2 ==> a == TraceAction::Return(-1isize),
{
    match trace_request {
        0 => TraceAction::ReadByte(id),
        1 => {
            let b = data as u8;
            assert(b == (data % 256) as u8) by (bit_vector)
                requires
                    b == data as u8,
            ;
            TraceAction::WriteByte(id, b)
        },
        2 => TraceAction::Return(tasks.get_syscall_count(id) as isize),
        _ => TraceAction::Return(-1),
    }
}

/// The result of `sbrk`: the old program break when the break could be
/// moved, -1 otherwise.
pub fn sys_sbrk(old_brk: Option<usize>) -> (r: isize)
    ensures
        r == match old_brk {
            Some(b) => b as isize,
            None => -1isize,
        },
{
    if let Some(old_brk) = old_brk {
        old_brk as isize
    } else {
        -1
    }
}

/// Yields: the current task becomes ready and the next ready task runs.
/// Returns 0 together with the switch to carry out (`None`: every
/// application has completed).
pub fn sys_yield(tasks: &mut TaskManager) -> (r: (isize, Option<(usize, usize)>))
    requires
        old(tasks).wf(),
        old(tasks).statuses().len() > 0,
    ensures
        final(tasks).wf(),
        r.0 == 0,
        switched(
            old(tasks).statuses().update(old(tasks).current(), TaskStatus::Ready),
            old(tasks).counts(),
            old(tasks).current(),
            *final(tasks),
            r.1,
        ),
{
    let switch = tasks.suspend_current_and_run_next();
    (0, switch)
}

/// Exits: the current task is marked exited and the next ready task runs.
/// Returns the switch to carry out (`None`: every application has
/// completed); the call never returns to the exiting task.
pub fn sys_exit(tasks: &mut TaskManager, _exit_code: i32) -> (switch: Option<(usize, usize)>)
    requires
        old(tasks).wf(),
        old(tasks).statuses().len() > 0,
    ensures
        final(tasks).wf(),
        switched(
            old(tasks).statuses().update(old(tasks).current(), TaskStatus::Exited),
            old(tasks).counts(),
            old(tasks).current(),
            *final(tasks),
            switch,
        ),
{
    tasks.exit_current_and_run_next()
}

} // verus!
