//! Task management: the stride scheduler's ready queue, and the
//! round-robin task list with its per-task system call counters.
pub mod manager;

use vstd::prelude::*;
use crate::syscall::{
    SYSCALL_EXIT, SYSCALL_GET_TIME, SYSCALL_MMAP, SYSCALL_MUNMAP, SYSCALL_SBRK, SYSCALL_TRACE,
    SYSCALL_WRITE, SYSCALL_YIELD,
};

verus! {

/// Number of system calls whose use is counted per task.
pub const NUM_SYSCALL_TYPE: usize = 8;

/// The state of a task.
#[derive(Clone, Copy, Debug, PartialEq, Eq, Structural)]
pub enum TaskStatus {
    /// Not yet loaded.
    UnInit,
    /// Ready to run.
    Ready,
    /// Running.
    Running,
    /// Exited.
    Exited,
}

/// What the task list keeps of a task.
pub struct TaskControlBlock {
    /// The task's state.
    pub task_status: TaskStatus,
    /// How often the task used each counted system call, indexed as
    /// [`syscall_slot`] says.
    pub syscall_counts: Vec<usize>,
}

/// The counter slot of a counted system call.
pub open spec fn syscall_slot(syscall_id: usize) -> int {
    if syscall_id == SYSCALL_WRITE {
        0
    } else if syscall_id == SYSCALL_EXIT {
        1
    } else if syscall_id == SYSCALL_YIELD {
        2
    } else if syscall_id == SYSCALL_GET_TIME {
        3
    } else if syscall_id == SYSCALL_TRACE {
        4
    } else if syscall_id == SYSCALL_MMAP {
        5
    } else if syscall_id == SYSCALL_MUNMAP {
        6
    } else if syscall_id == SYSCALL_SBRK {
        7
    } else {
        -1
    }
}

/// The system call's use is counted.
pub open spec fn is_counted(syscall_id: usize) -> bool {
    syscall_slot(syscall_id) >= 0
}

/// A zero for every counted system call.
pub open spec fn zero_counts() -> Seq<usize> {
    Seq::new(NUM_SYSCALL_TYPE as nat, |j: int| 0usize)
}

/// The task `d` places after `current` in the round-robin order of `n` tasks.
pub open spec fn after(current: int, d: int, n: int) -> int {
    (current + d) % n
}

/// Task `i` of `statuses` is ready.
pub open spec fn ready_at(statuses: Seq<TaskStatus>, i: int) -> bool {
    statuses[i] == TaskStatus::Ready
}

/// The first ready task after task `current` in round-robin order (task
/// `current` itself coming last), or `None` when no task is ready.
pub open spec fn next_ready_in(statuses: Seq<TaskStatus>, current: int) -> Option<usize> {
    let n = statuses.len() as int;
    if exists|d: int| 1 <= d <= n && #[trigger] ready_at(statuses, after(current, d, n)) {
        let d = choose|d: int|
            1 <= d <= n && #[trigger] ready_at(statuses, after(current, d, n)) && forall|e: int|
                1 <= e < d ==> !#[trigger] ready_at(statuses, after(current, e, n));
        Some(after(current, d, n) as usize)
    } else {
        None
    }
}

/// No task of `statuses` is ready.
pub open spec fn no_task_ready(statuses: Seq<TaskStatus>) -> bool {
    forall|i: int| 0 <= i < statuses.len() ==> #[trigger] statuses[i] != TaskStatus::Ready
}

/// `m` is the task list with states `statuses`, counters `counts` and
/// current task `current` once the switch `switch` took place: to the next
/// ready task, which becomes current and running, together with the index
/// of the task left behind; or, exactly when no task is ready, no switch
/// (every application has completed) and no change.
pub open spec fn switched(
    statuses: Seq<TaskStatus>,
    counts: Seq<Seq<usize>>,
    current: int,
    m: TaskManager,
    switch: Option<(usize, usize)>,
) -> bool {
    &&& (switch is None) == no_task_ready(statuses)
    &&& match next_ready_in(statuses, current) {
        Some(next) => {
            &&& switch == Some((current as usize, next))
            &&& m.statuses() == statuses.update(next as int, TaskStatus::Running)
            &&& m.counts() == counts
            &&& m.current() == next
        },
        None => {
            &&& switch is None
            &&& m.statuses() == statuses
            &&& m.counts() == counts
            &&& m.current() == current
        },
    }
}

/// No task is picked exactly when no task is ready.
pub proof fn lemma_no_next_iff_none_ready(statuses: Seq<TaskStatus>, current: int)
    requires
        statuses.len() == 0 || 0 <= current < statuses.len(),
    ensures
        (next_ready_in(statuses, current) is None) == no_task_ready(statuses),
{
    let n = statuses.len() as int;
    if exists|d: int| 1 <= d <= n && #[trigger] ready_at(statuses, after(current, d, n)) {
        let d = choose|d: int| 1 <= d <= n && #[trigger] ready_at(statuses, after(current, d, n));
        let id = if d <= n - 1 - current { current + d } else { d - (n - current) };
        lemma_round_robin_index(current, d, n, id);
        assert(statuses[id] == TaskStatus::Ready);
    } else {
        assert forall|i: int| 0 <= i < n implies #[trigger] statuses[i] != TaskStatus::Ready by {
            let d = if i > current { i - current } else { i - current + n };
            lemma_round_robin_index(current, d, n, i);
            assert(!ready_at(statuses, after(current, d, n)));
        }
    }
}

proof fn lemma_first_ready_at_most(statuses: Seq<TaskStatus>, current: int, d: int)
    requires
        1 <= d <= statuses.len(),
        ready_at(statuses, after(current, d, statuses.len() as int)),
    ensures
        exists|c: int|
            1 <= c <= statuses.len() && #[trigger] ready_at(statuses, after(current, c, statuses.len() as int))
                && forall|e: int|
                1 <= e < c ==> !#[trigger] ready_at(statuses, after(current, e, statuses.len() as int)),
    decreases d,
{
    let n = statuses.len() as int;
    if exists|e: int| 1 <= e < d && #[trigger] ready_at(statuses, after(current, e, n)) {
        let e = choose|e: int| 1 <= e < d && #[trigger] ready_at(statuses, after(current, e, n));
        lemma_first_ready_at_most(statuses, current, e);
    } else {
        assert(forall|e: int| 1 <= e < d ==> !#[trigger] ready_at(statuses, after(current, e, n)));
    }
}

/// The task picked next is a ready task.
pub proof fn lemma_next_is_ready(statuses: Seq<TaskStatus>, current: int)
    requires
        statuses.len() <= usize::MAX,
        next_ready_in(statuses, current) is Some,
    ensures
        0 <= next_ready_in(statuses, current)->0 < statuses.len(),
        statuses[next_ready_in(statuses, current)->0 as int] == TaskStatus::Ready,
{
    let n = statuses.len() as int;
    let d0 = choose|d: int| 1 <= d <= n && #[trigger] ready_at(statuses, after(current, d, n));
    lemma_first_ready_at_most(statuses, current, d0);
    let d = choose|d: int|
        1 <= d <= n && #[trigger] ready_at(statuses, after(current, d, n)) && forall|e: int|
            1 <= e < d ==> !#[trigger] ready_at(statuses, after(current, e, n));
    vstd::arithmetic::div_mod::lemma_mod_bound(current + d, n);
}

/// A task marked exited stays exited across a switch, and is never the
/// task switched to; so once exited, a task never runs again.
pub proof fn lemma_exited_never_runs(
    statuses: Seq<TaskStatus>,
    counts: Seq<Seq<usize>>,
    current: int,
    m: TaskManager,
    switch: Option<(usize, usize)>,
    x: int,
)
    requires
        statuses.len() <= usize::MAX,
        switched(statuses, counts, current, m, switch),
        0 <= x < statuses.len(),
        statuses[x] == TaskStatus::Exited,
    ensures
        m.statuses()[x] == TaskStatus::Exited,
        switch matches Some(p) ==> p.1 != x,
{
    if next_ready_in(statuses, current) is Some {
        lemma_next_is_ready(statuses, current);
    }
}

proof fn lemma_round_robin_index(current: int, d: int, n: int, id: int)
    requires
        0 <= current < n,
        1 <= d <= n,
        id == if d <= n - 1 - current { current + d } else { d - (n - current) },
    ensures
        id == after(current, d, n),
        0 <= id < n,
{
    if d <= n - 1 - current {
        vstd::arithmetic::div_mod::lemma_small_mod((current + d) as nat, n as nat);
    } else {
        vstd::arithmetic::div_mod::lemma_mod_sub_multiples_vanish(current + d, n);
        vstd::arithmetic::div_mod::lemma_small_mod((current + d - n) as nat, n as nat);
    }
}

/// The round-robin list of all tasks and the one that is running.
pub struct TaskManager {
    /// Total number of tasks.
    num_app: usize,
    /// The task list.
    tasks: Vec<TaskControlBlock>,
    /// Index of the current task.
    current_task: usize,
}

impl TaskManager {
    /// The states of the tasks.
    pub closed spec fn statuses(&self) -> Seq<TaskStatus> {
        self.tasks@.map_values(|t: TaskControlBlock| t.task_status)
    }

    /// The system call counters of the tasks.
    pub closed spec fn counts(&self) -> Seq<Seq<usize>> {
        self.tasks@.map_values(|t: TaskControlBlock| t.syscall_counts@)
    }

    /// Index of the current task.
    pub closed spec fn current(&self) -> int {
        self.current_task as int
    }

    /// The task list holds every task, the current index names one of them
    /// when there is any, and every task has one counter per counted call.
    pub closed spec fn wf(&self) -> bool {
        &&& self.tasks@.len() == self.num_app
        &&& (self.num_app == 0 ==> self.current_task == 0)
        &&& (self.num_app > 0 ==> self.current_task < self.num_app)
        &&& forall|i: int|
            0 <= i < self.tasks@.len() ==> #[trigger] self.tasks@[i].syscall_counts@.len()
                == NUM_SYSCALL_TYPE
    }

    /// What a well-formed task list guarantees its callers: one counter row
    /// per task, one counter per counted call in each, and a current task
    /// that is one of the tasks whenever there is any.
    pub proof fn lemma_wf_shape(&self)
        requires
            self.wf(),
        ensures
            self.counts().len() == self.statuses().len(),
            self.statuses().len() == 0 ==> self.current() == 0,
            self.statuses().len() > 0 ==> 0 <= self.current() < self.statuses().len(),
            forall|i: int| 0 <= i < self.counts().len() ==> #[trigger] self.counts()[i].len() == NUM_SYSCALL_TYPE,
    {
        assert forall|i: int| 0 <= i < self.counts().len() implies #[trigger] self.counts()[i].len()
            == NUM_SYSCALL_TYPE by {
            assert(self.counts()[i] == self.tasks@[i].syscall_counts@);
        }
    }

    /// The first ready task after the current one in round-robin order.
    pub open spec fn next_ready(&self) -> Option<usize> {
        next_ready_in(self.statuses(), self.current())
    }

    /// A task list of `num_app` tasks, all ready, with zero counters; the
    /// first one is current.
    pub fn new(num_app: usize) -> (m: Self)
        ensures
            m.wf(),
            m.statuses() == Seq::new(num_app as nat, |i: int| TaskStatus::Ready),
            m.counts() == Seq::new(num_app as nat, |i: int| zero_counts()),
            m.current() == 0,
    {
        let mut tasks: Vec<TaskControlBlock> = Vec::new();
        let mut i: usize = 0;
        while i < num_app
            invariant
                i <= num_app,
                tasks@.len() == i,
                forall|k: int|
                    #![trigger tasks@[k]]
                    0 <= k < i ==> tasks@[k].task_status == TaskStatus::Ready
                        && tasks@[k].syscall_counts@ == zero_counts(),
            decreases num_app - i,
        {
            let mut counts: Vec<usize> = Vec::new();
            let mut j: usize = 0;
            while j < NUM_SYSCALL_TYPE
                invariant
                    j <= NUM_SYSCALL_TYPE,
                    counts@ == Seq::new(j as nat, |k: int| 0usize),
                decreases NUM_SYSCALL_TYPE - j,
            {
                counts.push(0);
                j += 1;
                assert(counts@ =~= Seq::new(j as nat, |k: int| 0usize));
            }
            assert(counts@ =~= zero_counts());
            tasks.push(TaskControlBlock { task_status: TaskStatus::Ready, syscall_counts: counts });
            i += 1;
        }
        let m = TaskManager { num_app, tasks, current_task: 0 };
        assert forall|i: int| 0 <= i < m.tasks@.len() implies #[trigger] m.tasks@[i].syscall_counts@.len()
            == NUM_SYSCALL_TYPE by {
            assert(m.tasks@[i].syscall_counts@ == zero_counts());
        }
        assert(m.statuses() =~= Seq::new(num_app as nat, |i: int| TaskStatus::Ready));
        assert(m.counts() =~= Seq::new(num_app as nat, |i: int| zero_counts()));
        m
    }

    /// Finds the next task to run: the first ready task after the current
    /// one in round-robin order.
    fn find_next_task(&self) -> (next: Option<usize>)
        requires
            self.wf(),
        ensures
            next == self.next_ready(),
    {
        let n = self.num_app;
        let current = self.current_task;
        let ghost st = self.statuses();
        let mut k: usize = 0;
        while k < n
            invariant
                self.wf(),
                n == self.num_app,
                current == self.current_task,
                st == self.statuses(),
                st.len() == n,
                k <= n,
                forall|e: int| 1 <= e <= k ==> !#[trigger] ready_at(st, after(current as int, e, n as int)),
            decreases n - k,
        {
            let d = k + 1;
            let id = if d <= n - 1 - current {
                current + d
            } else {
                d - (n - current)
            };
            proof {
                lemma_round_robin_index(current as int, d as int, n as int, id as int);
            }
            assert(st[id as int] == self.tasks@[id as int].task_status);
            if self.tasks[id].task_status == TaskStatus::Ready {
                proof {
                    let nn = n as int;
                    assert(ready_at(st, after(current as int, d as int, nn)));
                    let c = choose|c: int|
                        1 <= c <= nn && #[trigger] ready_at(st, after(current as int, c, nn)) && forall|e: int|
                            1 <= e < c ==> !#[trigger] ready_at(st, after(current as int, e, nn));
                    if c < d {
                        assert(!ready_at(st, after(current as int, c, nn)));
                    }
                    if d < c {
                        assert(!ready_at(st, after(current as int, d as int, nn)));
                    }
                }
                return Some(id);
            }
            k += 1;
        }
        None
    }

    /// Sets the state of the current task.
    fn set_current_status(&mut self, status: TaskStatus)
        requires
            old(self).wf(),
            old(self).statuses().len() > 0,
        ensures
            final(self).wf(),
            final(self).statuses() == old(self).statuses().update(old(self).current(), status),
            final(self).counts() == old(self).counts(),
            final(self).current() == old(self).current(),
    {
        let cur = self.current_task;
        let ghost before = self.tasks@;
        self.tasks[cur].task_status = status;
        proof {
            assert forall|i: int| 0 <= i < self.tasks@.len() && i != cur implies #[trigger] self.tasks@[i]
                == before[i] by {}
            assert(self.statuses() =~= old(self).statuses().update(old(self).current(), status));
            assert(self.counts() =~= old(self).counts());
        }
    }

    /// Marks the first task running and names it as the one to switch to.
    pub fn run_first_task(&mut self) -> (first: usize)
        requires
            old(self).wf(),
            old(self).statuses().len() > 0,
        ensures
            final(self).wf(),
            first == 0,
            final(self).statuses() == old(self).statuses().update(0, TaskStatus::Running),
            final(self).counts() == old(self).counts(),
            final(self).current() == old(self).current(),
    {
        let ghost before = self.tasks@;
        self.tasks[0].task_status = TaskStatus::Running;
        proof {
            assert forall|i: int| 0 <= i < self.tasks@.len() && i != 0 implies #[trigger] self.tasks@[i]
                == before[i] by {}
            assert(self.statuses() =~= old(self).statuses().update(0, TaskStatus::Running));
            assert(self.counts() =~= old(self).counts());
        }
        0
    }

    /// Switches to the next ready task: marks it running, makes it current
    /// and returns the indices of the task to switch from and of the task to
    /// switch to.  `None` when no task is ready: every application has
    /// completed.
    pub fn run_next_task(&mut self) -> (switch: Option<(usize, usize)>)
        requires
            old(self).wf(),
        ensures
            final(self).wf(),
            switched(old(self).statuses(), old(self).counts(), old(self).current(), *final(self), switch),
    {
        proof {
            lemma_no_next_iff_none_ready(self.statuses(), self.current());
        }
        match self.find_next_task() {
            Some(next) => {
                let current = self.current_task;
                let ghost before = self.tasks@;
                proof {
                    let n = self.statuses().len() as int;
                    let d = choose|d: int|
                        1 <= d <= n && #[trigger] ready_at(self.statuses(), after(self.current(), d, n)) && forall|e: int|
                            1 <= e < d ==> !#[trigger] ready_at(self.statuses(), after(self.current(), e, n));
                    assert(0 <= after(self.current(), d, n) < n);
                }
                self.tasks[next].task_status = TaskStatus::Running;
                self.current_task = next;
                proof {
                    assert forall|i: int| 0 <= i < self.tasks@.len() && i != next implies #[trigger] self.tasks@[i]
                        == before[i] by {}
                    assert(self.statuses() =~= old(self).statuses().update(next as int, TaskStatus::Running));
                    assert(self.counts() =~= old(self).counts());
                }
                Some((current, next))
            },
            None => None,
        }
    }

    /// Marks the current task ready and switches to the next ready task.
    pub fn suspend_current_and_run_next(&mut self) -> (switch: Option<(usize, usize)>)
        requires
            old(self).wf(),
            old(self).statuses().len() > 0,
        ensures
            final(self).wf(),
            switched(
                old(self).statuses().update(old(self).current(), TaskStatus::Ready),
                old(self).counts(),
                old(self).current(),
                *final(self),
                switch,
            ),
    {
        self.set_current_status(TaskStatus::Ready);
        self.run_next_task()
    }

    /// Marks the current task exited and switches to the next ready task.
    pub fn exit_current_and_run_next(&mut self) -> (switch: Option<(usize, usize)>)
        requires
            old(self).wf(),
            old(self).statuses().len() > 0,
        ensures
            final(self).wf(),
            switched(
                old(self).statuses().update(old(self).current(), TaskStatus::Exited),
                old(self).counts(),
                old(self).current(),
                *final(self),
                switch,
            ),
    {
        self.set_current_status(TaskStatus::Exited);
        self.run_next_task()
    }


    /// The counter slot of counted system call `syscall_id`.
    pub fn get_syscall_count_idx(syscall_id: usize) -> (slot: usize)
        requires
            is_counted(syscall_id),
        ensures
            slot == syscall_slot(syscall_id),
            slot < NUM_SYSCALL_TYPE,
    {
        match syscall_id {
            SYSCALL_WRITE => 0,
            SYSCALL_EXIT => 1,
            SYSCALL_YIELD => 2,
            SYSCALL_GET_TIME => 3,
            SYSCALL_TRACE => 4,
            SYSCALL_MMAP => 5,
            SYSCALL_MUNMAP => 6,
            _ => 7,
        }
    }

    /// Counts one more use of system call `syscall_id` by the current task.
    pub fn add_syscall_count(&mut self, syscall_id: usize)
        requires
            old(self).wf(),
            old(self).statuses().len() > 0,
            is_counted(syscall_id),
            old(self).counts()[old(self).current()][syscall_slot(syscall_id)] < usize::MAX,
        ensures
            final(self).wf(),
            final(self).statuses() == old(self).statuses(),
            final(self).current() == old(self).current(),
            final(self).counts() == old(self).counts().update(
                old(self).current(),
                old(self).counts()[old(self).current()].update(
                    syscall_slot(syscall_id),
                    (old(self).counts()[old(self).current()][syscall_slot(syscall_id)] + 1) as usize,
                ),
            ),
    {
        let cur = self.current_task;
        let idx = Self::get_syscall_count_idx(syscall_id);
        assert(self.counts()[cur as int] == self.tasks@[cur as int].syscall_counts@);
        let ghost before = self.tasks@;
        let c = self.tasks[cur].syscall_counts[idx];
        self.tasks[cur].syscall_counts.set(idx, c + 1);
        proof {
            assert forall|i: int| 0 <= i < self.tasks@.len() && i != cur implies #[trigger] self.tasks@[i]
                == before[i] by {}
            assert(self.statuses() =~= old(self).statuses());
            assert(self.counts() =~= old(self).counts().update(
                old(self).current(),
                old(self).counts()[old(self).current()].update(
                    syscall_slot(syscall_id),
                    (old(self).counts()[old(self).current()][syscall_slot(syscall_id)] + 1) as usize,
                ),
            ));
        }
    }

    /// How often the current task used system call `syscall_id`.
    pub fn get_syscall_count(&self, syscall_id: usize) -> (count: usize)
        requires
            self.wf(),
            self.statuses().len() > 0,
            is_counted(syscall_id),
        ensures
            count == self.counts()[self.current()][syscall_slot(syscall_id)],
    {
        let cur = self.current_task;
        let idx = Self::get_syscall_count_idx(syscall_id);
        assert(self.counts()[cur as int] == self.tasks@[cur as int].syscall_counts@);
        self.tasks[cur].syscall_counts[idx]
    }

    /// Total number of tasks.
    pub fn num_app(&self) -> (n: usize)
        requires
            self.wf(),
        ensures
            n == self.statuses().len(),
    {
        self.num_app
    }

    /// Whether the use of system call `syscall_id` is counted.
    pub fn is_counted_syscall(syscall_id: usize) -> (counted: bool)
        ensures
            counted == is_counted(syscall_id),
    {
        syscall_id == SYSCALL_WRITE || syscall_id == SYSCALL_EXIT || syscall_id == SYSCALL_YIELD
            || syscall_id == SYSCALL_GET_TIME || syscall_id == SYSCALL_TRACE || syscall_id == SYSCALL_MMAP
            || syscall_id == SYSCALL_MUNMAP || syscall_id == SYSCALL_SBRK
    }
}

/// Reading a counter right after counting a use of the same system call
/// gives one more than before; the counters of other calls are unchanged.
pub proof fn lemma_count_after_add(before: TaskManager, after_add: TaskManager, syscall_id: usize, other_id: usize)
    requires
        before.wf(),
        before.statuses().len() > 0,
        is_counted(syscall_id),
        is_counted(other_id),
        before.counts()[before.current()][syscall_slot(syscall_id)] < usize::MAX,
        after_add.current() == before.current(),
        after_add.counts() == before.counts().update(
            before.current(),
            before.counts()[before.current()].update(
                syscall_slot(syscall_id),
                (before.counts()[before.current()][syscall_slot(syscall_id)] + 1) as usize,
            ),
        ),
    ensures
        after_add.counts()[after_add.current()][syscall_slot(syscall_id)]
            == before.counts()[before.current()][syscall_slot(syscall_id)] + 1,
        syscall_slot(other_id) != syscall_slot(syscall_id) ==> after_add.counts()[after_add.current()][syscall_slot(other_id)]
            == before.counts()[before.current()][syscall_slot(other_id)],
        other_id != syscall_id ==> after_add.counts()[after_add.current()][syscall_slot(other_id)]
            == before.counts()[before.current()][syscall_slot(other_id)],
{
    assert(before.counts()[before.current()] == before.tasks@[before.current_task as int].syscall_counts@);
    lemma_slots_distinct(syscall_id, other_id);
}

/// Every counted system call has a counter slot of its own: the slots lie
/// within the counters, and different counted calls never share one, so
/// counting one call never changes the count read for another.
pub proof fn lemma_slots_distinct(a: usize, b: usize)
    requires
        is_counted(a),
        is_counted(b),
    ensures
        0 <= syscall_slot(a) < NUM_SYSCALL_TYPE,
        a != b ==> syscall_slot(a) != syscall_slot(b),
{
}

} // verus!
