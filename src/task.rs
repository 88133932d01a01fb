//! Task control block: status, saved context and CPU-time accounting.
use vstd::prelude::*;

verus! {

/// Saved callee-side register state of a task (return address, stack
/// pointer and the twelve callee-saved registers).
#[derive(Clone, Copy, Debug)]
pub struct TaskContext {
    pub ra: usize,
    pub sp: usize,
    pub s: [usize; 12],
}

impl TaskContext {
    /// A context with every register zero.
    pub fn zero_init() -> (r: TaskContext)
        ensures
            r.ra == 0,
            r.sp == 0,
            forall|i: int| 0 <= i < 12 ==> r.s[i] == 0,
    {
        TaskContext { ra: 0, sp: 0, s: [0usize; 12] }
    }
}

/// Life-cycle state of a task.
#[derive(Clone, Copy, PartialEq, Eq, Structural, Debug)]
pub enum TaskStatus {
    UnInit,
    Ready,
    Running,
    Exited,
}

/// Per-task bookkeeping. `user_time` holds the time stamp of the last entry
/// into user mode, `kernel_time` that of the last kernel-time sample.
#[derive(Clone, Copy, Debug)]
pub struct TaskControlBlock {
    pub task_status: TaskStatus,
    pub task_cx: TaskContext,
    pub user_time: usize,
    pub kernel_time: usize,
}

impl TaskControlBlock {
    /// A fresh block in the given status and context, with both time marks at zero.
    pub fn new(task_status: TaskStatus, task_cx: TaskContext) -> (r: TaskControlBlock)
        ensures
            r.task_status == task_status,
            r.task_cx == task_cx,
            r.user_time == 0,
            r.kernel_time == 0,
    {
        TaskControlBlock { task_status, task_cx, user_time: 0, kernel_time: 0 }
    }

    /// Marks entry into user mode at time `now`.
    pub fn set_user_time(&mut self, now: usize)
        ensures
            final(self).user_time == now,
            final(self).kernel_time == old(self).kernel_time,
            final(self).task_status == old(self).task_status,
            final(self).task_cx == old(self).task_cx,
    {
        self.user_time = now;
    }

    /// Time spent since the last user-mode entry mark, read at time `now`.
    pub fn get_user_time(&mut self, now: usize) -> (r: usize)
        requires
            old(self).user_time <= now,
        ensures
            r == now - old(self).user_time,
            *final(self) == *old(self),
    {
        now - self.user_time
    }

    /// Time elapsed since the previous kernel-time sample; the mark moves to
    /// `now` in the same call, so repeated samples add up without drift.
    pub fn update_kernel_time(&mut self, now: usize) -> (r: usize)
        requires
            old(self).kernel_time <= now,
        ensures
            r == now - old(self).kernel_time,
            final(self).kernel_time == now,
            final(self).user_time == old(self).user_time,
            final(self).task_status == old(self).task_status,
            final(self).task_cx == old(self).task_cx,
    {
        let last_time = self.kernel_time;
        self.kernel_time = now;
        self.kernel_time - last_time
    }
}

} // verus!
