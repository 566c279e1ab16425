//! Stride scheduling of ready tasks.
//!
//! Each ready task carries a stride; the scheduler always runs a task of
//! least stride and then advances that task's stride by its pass,
//! `BIGSTRIDE / priority`, so that tasks of higher priority advance more
//! slowly and run more often.
use vstd::prelude::*;
use vstd::multiset::Multiset;

verus! {

broadcast use vstd::seq_lib::group_to_multiset_ensures;

/// The numerator of every pass: a task of priority `p` advances its
/// stride by `BIGSTRIDE / p` each time it is scheduled.
pub const BIGSTRIDE: usize = 0x10_0000;

/// A task as the scheduler sees it.
#[derive(Clone, Copy, Debug)]
pub struct TaskRef {
    /// Identifies the task.
    pub pid: usize,
    /// Scheduling priority; never zero.
    pub priority: usize,
    /// How far the task has advanced.
    pub stride: usize,
}

/// A ready task with its pass.
#[derive(Clone, Copy, Debug)]
pub struct StrideTask {
    /// The task.
    pub task: TaskRef,
    /// How much the task's stride grows each time it is scheduled.
    pub pass: usize,
}

/// The pass of a task of priority `priority`.
pub open spec fn pass_of(priority: usize) -> int {
    BIGSTRIDE as int / priority as int
}

/// `q` is the quotient of `x` by `d`: `q * d <= x < (q + 1) * d`.
proof fn lemma_quotient_bounds(x: int, d: int, q: int)
    requires
        0 <= x,
        0 < d,
        q == x / d,
    ensures
        q * d <= x < (q + 1) * d,
{
    vstd::arithmetic::div_mod::lemma_fundamental_div_mod(x, d);
    vstd::arithmetic::div_mod::lemma_mod_bound(x, d);
    assert(q * d <= x < (q + 1) * d) by (nonlinear_arith)
        requires
            x == d * q + x % d,
            0 <= x % d < d,
    ;
}

/// A task's pass is `BIGSTRIDE` divided by its priority, rounded down:
/// `priority` whole passes fit in `BIGSTRIDE`, one more does not.  So a
/// higher priority never gives a longer pass.
pub proof fn lemma_pass_is_quotient(priority: usize, other: usize)
    requires
        priority > 0,
        other >= priority,
    ensures
        pass_of(priority) * priority <= BIGSTRIDE < (pass_of(priority) + 1) * priority,
        pass_of(other) <= pass_of(priority),
{
    lemma_quotient_bounds(BIGSTRIDE as int, priority as int, pass_of(priority));
    lemma_quotient_bounds(BIGSTRIDE as int, other as int, pass_of(other));
    let a = pass_of(priority);
    let b = pass_of(other);
    assert(b <= a) by (nonlinear_arith)
        requires
            b * other <= BIGSTRIDE,
            BIGSTRIDE < (a + 1) * priority,
            other >= priority,
            priority > 0,
            b >= 0,
    ;
}

/// `task` after it advanced by `pass` (wrapping around at `usize::MAX`).
pub open spec fn advanced(task: TaskRef, pass: usize) -> TaskRef {
    TaskRef { stride: vstd::wrapping::usize_specs::wrapping_add(task.stride, pass), ..task }
}

/// `e` has the least stride of `q`.
pub open spec fn is_least(q: Multiset<StrideTask>, e: StrideTask) -> bool {
    &&& q.contains(e)
    &&& forall|o: StrideTask| #[trigger] q.contains(o) ==> e.task.stride <= o.task.stride
}

/// What fetching from queue `before` may give: nothing when it is empty;
/// otherwise one entry of least stride leaves the queue and its task
/// comes back advanced by its pass.
pub open spec fn fetched(before: Multiset<StrideTask>, after: Multiset<StrideTask>, r: Option<TaskRef>) -> bool {
    match r {
        None => before.len() == 0 && after == before,
        Some(t) => exists|e: StrideTask|
            #[trigger] is_least(before, e) && after == before.remove(e) && t == advanced(e.task, e.pass),
    }
}

impl StrideTask {
    /// Wraps `task` with its pass, `BIGSTRIDE / priority`.
    pub fn new(task: TaskRef) -> (s: Self)
        requires
            task.priority > 0,
        ensures
            s.task == task,
            s.pass == pass_of(task.priority),
            s.pass * task.priority <= BIGSTRIDE < (s.pass + 1) * task.priority,
    {
        let pass = BIGSTRIDE / task.priority;
        proof {
            lemma_quotient_bounds(BIGSTRIDE as int, task.priority as int, pass as int);
        }
        StrideTask { task, pass }
    }

    /// Advances the task's stride by its pass.
    pub fn add_stride(&mut self)
        ensures
            final(self).task == advanced(old(self).task, old(self).pass),
            final(self).pass == old(self).pass,
    {
        self.task.stride = self.task.stride.wrapping_add(self.pass);
    }
}

/// The ready queue of the stride scheduler.
pub struct TaskManager {
    stride_queue: Vec<StrideTask>,
}

/// Every entry of `q` has a positive priority and the pass it gives.
pub open spec fn well_passed(q: Multiset<StrideTask>) -> bool {
    forall|e: StrideTask| #[trigger] q.contains(e) ==> e.task.priority > 0 && e.pass == pass_of(e.task.priority)
}

impl TaskManager {
    /// Every queued entry has a positive priority and the pass it gives.
    #[verifier::type_invariant]
    spec fn entries_well_passed(self) -> bool {
        forall|i: int|
            0 <= i < self.stride_queue@.len() ==> {
                &&& (#[trigger] self.stride_queue@[i]).task.priority > 0
                &&& self.stride_queue@[i].pass == pass_of(self.stride_queue@[i].task.priority)
            }
    }

    /// The ready tasks, in no particular order.
    pub closed spec fn queue(&self) -> Multiset<StrideTask> {
        self.stride_queue@.to_multiset()
    }

    /// An empty ready queue.
    pub fn new() -> (m: Self)
        ensures
            m.queue() == Multiset::<StrideTask>::empty(),
            well_passed(m.queue()),
    {
        let m = TaskManager { stride_queue: Vec::new() };
        assert(m.stride_queue@ =~= Seq::<StrideTask>::empty());
        m
    }

    /// Makes `task` ready, with the pass its priority gives.
    pub fn add_stride(&mut self, task: TaskRef)
        requires
            task.priority > 0,
        ensures
            final(self).queue() == old(self).queue().insert(
                StrideTask { task, pass: pass_of(task.priority) as usize },
            ),
            well_passed(final(self).queue()),
    {
        proof {
            use_type_invariant(&*self);
        }
        let s = StrideTask::new(task);
        let mut q: Vec<StrideTask> = Vec::new();
        std::mem::swap(&mut q, &mut self.stride_queue);
        q.push(s);
        self.stride_queue = q;
        proof {
            use_type_invariant(&*self);
            lemma_seq_well_passed(self.stride_queue@);
        }
    }

    /// Takes a ready task of least stride out of the queue, advances its
    /// stride by its pass, `BIGSTRIDE / priority`, and returns it; `None`
    /// when no task is ready.
    pub fn fetch_stride(&mut self) -> (r: Option<TaskRef>)
        ensures
            fetched(old(self).queue(), final(self).queue(), r),
            r matches Some(t) ==> exists|e: StrideTask|
                #[trigger] is_least(old(self).queue(), e) && final(self).queue() == old(self).queue().remove(e)
                    && t == advanced(e.task, pass_of(e.task.priority) as usize),
            well_passed(final(self).queue()),
    {
        proof {
            use_type_invariant(&*self);
            lemma_seq_well_passed(self.stride_queue@);
        }
        let n = self.stride_queue.len();
        if n == 0 {
            assert(self.stride_queue@ =~= Seq::<StrideTask>::empty());
            return None;
        }
        let mut best: usize = 0;
        let mut i: usize = 1;
        while i < n
            invariant
                n == self.stride_queue@.len(),
                1 <= i <= n,
                best < i,
                forall|k: int| 0 <= k < i ==> self.stride_queue@[best as int].task.stride
                    <= #[trigger] self.stride_queue@[k].task.stride,
            decreases n - i,
        {
            if self.stride_queue[i].task.stride < self.stride_queue[best].task.stride {
                best = i;
            }
            i += 1;
        }
        let ghost q = self.stride_queue@;
        let mut rest: Vec<StrideTask> = Vec::new();
        std::mem::swap(&mut rest, &mut self.stride_queue);
        let mut stride_task = rest.remove(best);
        proof {
            assert forall|k: int| 0 <= k < rest@.len() implies {
                &&& (#[trigger] rest@[k]).task.priority > 0
                &&& rest@[k].pass == pass_of(rest@[k].task.priority)
            } by {
                if k < best {
                    assert(rest@[k] == q[k]);
                } else {
                    assert(rest@[k] == q[k + 1]);
                }
            }
        }
        self.stride_queue = rest;
        proof {
            let e = q[best as int];
            assert(q.to_multiset().contains(e));
            assert forall|o: StrideTask| #[trigger] q.to_multiset().contains(o) implies e.task.stride
                <= o.task.stride by {
                assert(q.contains(o));
                let k = choose|k: int| 0 <= k < q.len() && q[k] == o;
                assert(q[best as int].task.stride <= q[k].task.stride);
            }
            assert(is_least(q.to_multiset(), e));
            assert(old(self).queue() == q.to_multiset());
            assert(stride_task == e);
            assert(e.pass == pass_of(e.task.priority));
            lemma_seq_well_passed(self.stride_queue@);
        }
        stride_task.add_stride();
        Some(stride_task.task)
    }
}

proof fn lemma_seq_well_passed(s: Seq<StrideTask>)
    requires
        forall|i: int|
            0 <= i < s.len() ==> {
                &&& (#[trigger] s[i]).task.priority > 0
                &&& s[i].pass == pass_of(s[i].task.priority)
            },
    ensures
        well_passed(s.to_multiset()),
{
    assert forall|e: StrideTask| #[trigger] s.to_multiset().contains(e) implies e.task.priority > 0 && e.pass
        == pass_of(e.task.priority) by {
        assert(s.contains(e));
        let k = choose|k: int| 0 <= k < s.len() && s[k] == e;
        assert(s[k] == e);
    }
}

/// Every task of `q` has priority at least 2, so that its pass is at most
/// `BIGSTRIDE / 2`.
pub open spec fn priorities_at_least_two(q: Multiset<StrideTask>) -> bool {
    forall|e: StrideTask| #[trigger] q.contains(e) ==> e.task.priority >= 2 && e.pass == pass_of(e.task.priority)
}

/// No two strides of `q` differ by more than `bound`.
pub open spec fn spread_within(q: Multiset<StrideTask>, bound: int) -> bool {
    forall|a: StrideTask, b: StrideTask|
        #[trigger] q.contains(a) && #[trigger] q.contains(b) ==> a.task.stride - b.task.stride <= bound
}

/// When every priority is at least 2, the strides of the ready tasks never
/// drift more than `BIGSTRIDE / 2` apart: if they are within that bound,
/// they still are once a task is fetched and put back with its advanced
/// stride (as long as that stride does not wrap around).
pub proof fn lemma_stride_spread_kept(
    before: Multiset<StrideTask>,
    after: Multiset<StrideTask>,
    t: TaskRef,
)
    requires
        priorities_at_least_two(before),
        spread_within(before, BIGSTRIDE as int / 2),
        forall|e: StrideTask| #[trigger] is_least(before, e) ==> e.task.stride + e.pass <= usize::MAX,
        fetched(before, after, Some(t)),
    ensures
        spread_within(after.insert(StrideTask { task: t, pass: pass_of(t.priority) as usize }), BIGSTRIDE as int / 2),
        priorities_at_least_two(after.insert(StrideTask { task: t, pass: pass_of(t.priority) as usize })),
{
    let e = choose|e: StrideTask|
        #[trigger] is_least(before, e) && after == before.remove(e) && t == advanced(e.task, e.pass);
    let back = StrideTask { task: t, pass: pass_of(t.priority) as usize };
    let q = after.insert(back);
    assert(e.task.priority >= 2);
    assert(e.pass <= BIGSTRIDE / 2) by {
        assert(BIGSTRIDE as int / e.task.priority as int <= BIGSTRIDE as int / 2) by (nonlinear_arith)
            requires e.task.priority >= 2;
    }
    assert forall|a: StrideTask| #[trigger] q.contains(a) implies a == back || before.contains(a) by {
        if a != back {
            assert(after.contains(a));
        }
    }
    assert forall|a: StrideTask, b: StrideTask|
        #[trigger] q.contains(a) && #[trigger] q.contains(b) implies a.task.stride - b.task.stride
        <= BIGSTRIDE / 2 by {
        assert(t.stride == e.task.stride + e.pass);
        if a == back && b != back {
            assert(before.contains(b));
            assert(e.task.stride <= b.task.stride);
        } else if a != back && b == back {
            assert(before.contains(a));
            assert(before.contains(e));
            assert(a.task.stride - e.task.stride <= BIGSTRIDE / 2);
        } else if a != back && b != back {
            assert(before.contains(a));
            assert(before.contains(b));
        }
    }
}

} // verus!
