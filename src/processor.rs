//! The processor: which task runs on this core, and the decisions around
//! switching between the scheduler's idle context and a task's context.
//! The register switch itself is performed by the caller with the contexts
//! these functions hand out and take back.
use crate::task::{TaskContext, TaskControlBlock, TaskStatus};
use vstd::prelude::*;

verus! {

/// State of one core: the task running on it, if any, and the idle
/// context that the scheduler loop runs in.
pub struct Processor {
    current: Option<TaskControlBlock>,
    idle_task_cx: TaskContext,
}

impl Processor {
    /// The task running on this core.
    pub closed spec fn current_spec(&self) -> Option<TaskControlBlock> {
        self.current
    }

    /// The scheduler's saved idle context.
    pub closed spec fn idle_cx(&self) -> TaskContext {
        self.idle_task_cx
    }

    /// An idle core with a zeroed idle context.
    pub fn new() -> (r: Processor)
        ensures
            r.current_spec().is_none(),
            r.idle_cx().ra == 0,
            r.idle_cx().sp == 0,
    {
        Processor { current: None, idle_task_cx: TaskContext::zero_init() }
    }

    /// Removes the running task from the core and hands it over.
    pub fn take_current(&mut self) -> (r: Option<TaskControlBlock>)
        ensures
            r == old(self).current_spec(),
            final(self).current_spec().is_none(),
            final(self).idle_cx() == old(self).idle_cx(),
    {
        self.current.take()
    }

    /// A copy of the running task's block, leaving it in place.
    pub fn current(&self) -> (r: Option<TaskControlBlock>)
        ensures
            r == self.current_spec(),
    {
        self.current
    }

    /// The saved idle context.
    pub fn idle_task_cx(&self) -> (r: TaskContext)
        ensures
            r == self.idle_cx(),
    {
        self.idle_task_cx
    }
}

/// One turn of the scheduler loop. `fetched` is what the ready queue handed
/// out (never an exited task), `idle_regs` the registers of the loop at
/// this point. With nothing
/// fetched, nothing changes and no switch happens: the loop polls again.
/// Otherwise the task is marked running and installed as the current task,
/// the loop's registers are saved as the idle context, and the task's
/// saved context is returned for the switch to load.
pub fn run_tasks(
    processor: &mut Processor,
    fetched: Option<TaskControlBlock>,
    idle_regs: TaskContext,
) -> (switch_to: Option<TaskContext>)
    requires
        fetched.is_some() ==> fetched.unwrap().task_status != TaskStatus::Exited,
    ensures
        fetched.is_none() ==> switch_to.is_none() && *final(processor) == *old(processor),
        fetched.is_some() ==> {
            let t = fetched.unwrap();
            &&& switch_to == Some(t.task_cx)
            &&& final(processor).idle_cx() == idle_regs
            &&& final(processor).current_spec() == Some(
                TaskControlBlock { task_status: TaskStatus::Running, ..t },
            )
        },
{
    match fetched {
        None => None,
        Some(task) => {
            let mut task = task;
            task.task_status = TaskStatus::Running;
            let next_task_cx = task.task_cx;
            processor.idle_task_cx = idle_regs;
            processor.current = Some(task);
            Some(next_task_cx)
        },
    }
}

/// Switches a task away, back to the scheduler loop: `task_regs`, the
/// task's registers at this point, are saved as its context and nothing
/// else of it changes; the idle context is returned for the switch to load.
pub fn schedule(
    processor: &Processor,
    task: &mut TaskControlBlock,
    task_regs: TaskContext,
) -> (switch_to: TaskContext)
    ensures
        switch_to == processor.idle_cx(),
        final(task).task_cx == task_regs,
        final(task).task_status == old(task).task_status,
        final(task).user_time == old(task).user_time,
        final(task).kernel_time == old(task).kernel_time,
{
    task.task_cx = task_regs;
    processor.idle_task_cx
}

} // verus!
